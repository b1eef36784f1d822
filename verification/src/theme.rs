//! Theme files: parsing, validation and reference resolution.

use vstd::prelude::*;
use vstd::string::*;

use crate::path_map::{lemma_lookup_insert, lemma_sorted_insert_sorted, lookup, sorted_insert, strictly_sorted, PathMap};
use crate::text::{chars_of, push_str, string_of};
use crate::theme::problem::{in_line_order, lemma_sort_by_line_keeps, listed, listed_text, problem_views, sort_by_line, sorted_by_line, Problem, ProblemView};
use crate::theme::resolve::{
    chain_ends, cycle_report, cycle_view, defs_of, graph_problems, key_index, lemma_chains_end, lemma_ended, next_spec,
    on_cycle, reach, reported, resolved_pairs, Defs,
};
use crate::theme::walk::{
    definition_views, lemma_lookup_views, meta_path, meta_problems, meta_problems_spec, meta_text,
    lemma_walk_sorted, name_text, variant_key, walk, walk_spec, Definition, RawValue, RawView, Walked,
};
use crate::token::{is_segment, is_segment_spec, pairs_map, TokenPath, Tokens};
use crate::toml::{parse_toml, toml_document, TomlTable};

pub mod problem;
pub mod resolve;
pub mod walk;

verus! {

/// A theme's identifier: its filename minus `.toml`.
#[derive(Debug)]
pub struct ThemeId {
    text: String,
}

impl View for ThemeId {
    type V = Seq<char>;

    closed spec fn view(&self) -> Seq<char> {
        self.text@
    }
}

impl PartialEq for ThemeId {
    fn eq(&self, other: &Self) -> (equal: bool) {
        self.text == other.text
    }
}

impl Eq for ThemeId {
}

impl vstd::std_specs::cmp::PartialEqSpecImpl for ThemeId {
    open spec fn obeys_eq_spec() -> bool {
        true
    }

    open spec fn eq_spec(&self, other: &ThemeId) -> bool {
        self@ == other@
    }
}

impl Clone for ThemeId {
    fn clone(&self) -> (copy: Self)
        ensures
            copy@ == self@,
    {
        proof {
            use_type_invariant(self);
        }
        ThemeId { text: self.text.clone() }
    }
}

impl ThemeId {
    #[verifier::type_invariant]
    pub closed spec fn well_formed(self) -> bool {
        is_segment_spec(self.text@)
    }

    /// What the type invariant says of an identifier.
    pub proof fn lemma_well_formed(id: ThemeId)
        requires
            id.well_formed(),
        ensures
            is_segment_spec(id@),
    {
    }

    /// Parses `text` as an identifier, returning `None` when it is not a single segment.
    pub fn parse(text: &str) -> (id: Option<ThemeId>)
        ensures
            id is Some <==> is_segment_spec(text@),
            id matches Some(id) ==> id@ == text@,
    {
        if is_segment(text) {
            Some(ThemeId { text: text.to_owned() })
        } else {
            None
        }
    }

    /// The identifier as written.
    pub fn as_str(&self) -> (text: &str)
        ensures
            text@ == self@,
    {
        self.text.as_str()
    }

    /// Whether two identifiers are the same.
    pub fn same(&self, other: &ThemeId) -> (equal: bool)
        ensures
            equal == (self@ == other@),
    {
        self.text == other.text
    }
}

/// Which background a theme is written for.
#[derive(Debug, Clone, Copy, PartialEq, Eq, Structural)]
pub enum Variant {
    /// Written for a dark background.
    Dark,
    /// Written for a light background.
    Light,
}

/// `dark`.
pub open spec fn dark_text() -> Seq<char> {
    seq!['d', 'a', 'r', 'k']
}

/// `light`.
pub open spec fn light_text() -> Seq<char> {
    seq!['l', 'i', 'g', 'h', 't']
}

/// The variant `text` spells, if any.
pub open spec fn variant_of(text: Seq<char>) -> Option<Variant> {
    if text == dark_text() {
        Some(Variant::Dark)
    } else if text == light_text() {
        Some(Variant::Light)
    } else {
        None
    }
}

/// How a theme file spells `variant`.
pub open spec fn variant_text(variant: Variant) -> Seq<char> {
    match variant {
        Variant::Dark => dark_text(),
        Variant::Light => light_text(),
    }
}

impl Variant {
    /// Parses `text` as a variant, returning `None` when it is neither `dark` nor `light`.
    pub fn parse(text: &str) -> (variant: Option<Variant>)
        ensures
            variant == variant_of(text@),
    {
        let chars = chars_of(text);
        Self::parse_chars(chars.as_slice())
    }

    /// Parses `chars` as a variant.
    pub fn parse_chars(chars: &[char]) -> (variant: Option<Variant>)
        ensures
            variant == variant_of(chars@),
    {
        if chars.len() == 4 && chars[0] == 'd' && chars[1] == 'a' && chars[2] == 'r' && chars[3]
            == 'k' {
            proof {
                assert(chars@ =~= dark_text());
            }
            Some(Variant::Dark)
        } else if chars.len() == 5 && chars[0] == 'l' && chars[1] == 'i' && chars[2] == 'g'
            && chars[3] == 'h' && chars[4] == 't' {
            proof {
                assert(chars@ =~= light_text());
            }
            Some(Variant::Light)
        } else {
            proof {
                if chars@ == dark_text() {
                    assert(chars@[0] == 'd' && chars@[1] == 'a' && chars@[2] == 'r' && chars@[3]
                        == 'k');
                }
                if chars@ == light_text() {
                    assert(chars@[0] == 'l' && chars@[1] == 'i' && chars@[2] == 'g' && chars@[3]
                        == 'h' && chars@[4] == 't');
                }
            }
            None
        }
    }

    /// The variant as a theme file spells it.
    pub fn as_str(self) -> (text: &'static str)
        ensures
            text@ == variant_text(self),
    {
        proof {
            reveal_strlit("dark");
            reveal_strlit("light");
        }
        match self {
            Variant::Dark => "dark",
            Variant::Light => "light",
        }
    }

    /// The variant as a theme file spells it, which is how it displays.
    pub fn to_text(self) -> (text: String)
        ensures
            text@ == variant_text(self),
    {
        self.as_str().to_owned()
    }
}

/// What the hex digit `c` is worth, in either case.
pub open spec fn nibble_spec(c: u8) -> Option<u8> {
    if 48 <= c <= 57 {
        Some((c - 48) as u8)
    } else if 97 <= c <= 102 {
        Some((c - 87) as u8)
    } else if 65 <= c <= 70 {
        Some((c - 55) as u8)
    } else {
        None
    }
}

/// What one hex digit is worth, in either case.
///
/// Decoded here rather than through `u8::from_str_radix`, which also accepts a leading `+`
/// and would let `#+f+f+f` through as a colour.
pub fn nibble(byte: u8) -> (value: Option<u8>)
    ensures
        value == nibble_spec(byte),
{
    if 48 <= byte && byte <= 57 {
        Some(byte - 48)
    } else if 97 <= byte && byte <= 102 {
        Some(byte - 87)
    } else if 65 <= byte && byte <= 70 {
        Some(byte - 55)
    } else {
        None
    }
}

/// The byte a character below 128 is.
pub open spec fn ascii_byte(c: char) -> u8 {
    (c as u32) as u8
}

/// Whether `c` is a hex digit, in either case.
pub open spec fn is_hex_char(c: char) -> bool {
    ('0' <= c && c <= '9') || ('a' <= c && c <= 'f') || ('A' <= c && c <= 'F')
}

/// What the hex digit `c` is worth.
pub open spec fn hex_char_value(c: char) -> nat {
    if '0' <= c && c <= '9' {
        (c as nat - 48) as nat
    } else if 'a' <= c && c <= 'f' {
        (c as nat - 87) as nat
    } else {
        (c as nat - 55) as nat
    }
}

/// Whether `text` is a hex literal: `#` and six hex digits, in either case.
pub open spec fn is_hex_literal(text: Seq<char>) -> bool {
    &&& text.len() == 7
    &&& text[0] == '#'
    &&& forall|i: int| 1 <= i < 7 ==> #[trigger] is_hex_char(text[i])
}

/// The channel the two hex digits at `at` and `at + 1` of `text` make.
pub open spec fn channel(text: Seq<char>, at: int) -> nat {
    hex_char_value(text[at]) * 16 + hex_char_value(text[at + 1])
}

/// Two hex digits make a byte.
pub proof fn lemma_channel_byte(text: Seq<char>, at: int)
    requires
        is_hex_literal(text),
        at == 1 || at == 3 || at == 5,
    ensures
        channel(text, at) < 256,
{
    assert(is_hex_char(text[at]));
    assert(is_hex_char(text[at + 1]));
    assert(hex_char_value(text[at]) <= 15);
    assert(hex_char_value(text[at + 1]) <= 15);
}

/// The value of a hex digit character.
fn hex_char(c: char) -> (value: Option<u8>)
    ensures
        value is Some <==> is_hex_char(c),
        value matches Some(v) ==> v as nat == hex_char_value(c),
{
    if '0' <= c && c <= '9' {
        Some(((c as u32) - 48) as u8)
    } else if 'a' <= c && c <= 'f' {
        Some(((c as u32) - 87) as u8)
    } else if 'A' <= c && c <= 'F' {
        Some(((c as u32) - 55) as u8)
    } else {
        None
    }
}

/// `value` as red, green and blue, or `None` when it is not a hex literal.
///
/// A hex literal is `#` and six hex digits. Three-digit shorthand and eight-digit
/// `#rrggbbaa` are rejected rather than expanded or truncated. Either case is read.
pub fn rgb(value: &str) -> (channels: Option<[u8; 3]>)
    ensures
        channels is Some <==> is_hex_literal(value@),
        channels matches Some(c) ==> c@ == seq![
            channel(value@, 1) as u8,
            channel(value@, 3) as u8,
            channel(value@, 5) as u8,
        ],
{
    let chars = chars_of(value);
    rgb_chars(chars.as_slice())
}

/// `chars` as red, green and blue, or `None` when it is not a hex literal.
pub fn rgb_chars(chars: &[char]) -> (channels: Option<[u8; 3]>)
    ensures
        channels is Some <==> is_hex_literal(chars@),
        channels matches Some(c) ==> c@ == seq![
            channel(chars@, 1) as u8,
            channel(chars@, 3) as u8,
            channel(chars@, 5) as u8,
        ],
{
    if chars.len() != 7 || chars[0] != '#' {
        return None;
    }
    let mut digits: [u8; 6] = [0; 6];
    let mut i: usize = 1;
    while i < 7
        invariant
            1 <= i <= 7,
            chars@.len() == 7,
            chars@[0] == '#',
            forall|j: int| 1 <= j < i ==> #[trigger] is_hex_char(chars@[j]),
            forall|j: int| 1 <= j < i ==> digits@[j - 1] as nat == hex_char_value(#[trigger] chars@[j]),
            digits@.len() == 6,
            forall|j: int| 0 <= j < i - 1 ==> #[trigger] digits@[j] < 16,
        decreases 7 - i,
    {
        match hex_char(chars[i]) {
            Some(v) => {
                digits[i - 1] = v;
            },
            None => {
                return None;
            },
        }
        i = i + 1;
    }
    let red = digits[0] * 16 + digits[1];
    let green = digits[2] * 16 + digits[3];
    let blue = digits[4] * 16 + digits[5];
    let channels: [u8; 3] = [red, green, blue];
    proof {
        assert(channels@ =~= seq![
            channel(chars@, 1) as u8,
            channel(chars@, 3) as u8,
            channel(chars@, 5) as u8,
        ]);
    }
    Some(channels)
}

/// A theme, loaded and fully resolved.
#[derive(Debug)]
pub struct Theme {
    id: ThemeId,
    name: String,
    variant: Variant,
    tokens: Tokens,
}

/// A theme as plain values.
pub struct ThemeView {
    pub id: Seq<char>,
    pub name: Seq<char>,
    pub variant: Variant,
    pub tokens: Map<Seq<char>, Seq<char>>,
}

impl View for Theme {
    type V = ThemeView;

    closed spec fn view(&self) -> ThemeView {
        ThemeView { id: self.id@, name: self.name@, variant: self.variant, tokens: self.tokens@ }
    }
}

/// Loading a theme failed.
#[derive(Debug)]
pub enum ThemeError {
    /// The file is not valid TOML.
    Syntax {
        /// The file the parse failed in.
        path: String,
        /// What the TOML parser says is wrong.
        message: String,
    },
    /// The filename is not a valid identifier.
    Id {
        /// The file the identifier came from.
        path: String,
        /// The filename, minus `.toml`.
        id: String,
    },
    /// The file could not be read.
    Read {
        /// The file the read failed on.
        path: String,
        /// What the read failed with.
        message: String,
    },
    /// The file parses as TOML but is not a valid theme.
    Invalid {
        /// The file the problems were found in.
        path: String,
        /// Every problem, in source order.
        problems: Vec<Problem>,
    },
}

/// A theme error as plain values.
pub enum ThemeErrorView {
    Syntax { path: Seq<char>, message: Seq<char> },
    Id { path: Seq<char>, id: Seq<char> },
    Read { path: Seq<char>, message: Seq<char> },
    Invalid { path: Seq<char>, problems: Seq<ProblemView> },
}

impl View for ThemeError {
    type V = ThemeErrorView;

    open spec fn view(&self) -> ThemeErrorView {
        match self {
            ThemeError::Syntax { path, message } => ThemeErrorView::Syntax { path: path@, message: message@ },
            ThemeError::Id { path, id } => ThemeErrorView::Id { path: path@, id: id@ },
            ThemeError::Read { path, message } => ThemeErrorView::Read { path: path@, message: message@ },
            ThemeError::Invalid { path, problems } => ThemeErrorView::Invalid {
                path: path@,
                problems: problem_views(problems@),
            },
        }
    }
}

/// The outcome of loading a theme, as plain values.
pub open spec fn outcome_view(result: Result<Theme, ThemeError>) -> Result<ThemeView, ThemeErrorView> {
    match result {
        Ok(theme) => Ok(theme@),
        Err(error) => Err(error@),
    }
}

/// `meta.id`.
pub open spec fn meta_id_path() -> Seq<char> {
    meta_path(seq!['i', 'd'])
}

/// The definitions with `meta.id`, which is the filename and never written in the file.
pub open spec fn with_id(definitions: Defs, id: Seq<char>) -> Defs {
    sorted_insert(definitions, meta_id_path(), (RawView::Literal(id), 0usize))
}

/// `meta.name` and `meta.variant`, read back out of the resolved tokens; `line` is the line
/// `variant` is written on.
pub open spec fn metadata_spec(tokens: Map<Seq<char>, Seq<char>>, line: usize) -> Result<
    (Seq<char>, Variant),
    ProblemView,
> {
    let name = meta_path(name_text());
    let variant = meta_path(variant_key());
    if tokens.contains_key(name) && tokens.contains_key(variant) {
        match variant_of(tokens[variant]) {
            Some(v) => Ok((tokens[name], v)),
            None => Err(ProblemView::MetaVariant { line: line as nat, value: tokens[variant] }),
        }
    } else if !tokens.contains_key(name) {
        Err(ProblemView::MetaMissing { key: name_text() })
    } else {
        Err(ProblemView::MetaMissing { key: variant_key() })
    }
}

/// Every problem a parsed theme file has, `cs` being the cycles of its reference graph.
pub open spec fn theme_problems(bytes: Seq<u8>, document: TomlTable, id: Seq<char>, cs: Seq<Seq<usize>>) -> Seq<
    ProblemView,
> {
    let walked = walk_spec(bytes, document);
    let defs = with_id(walked.definitions, id);
    walked.problems + meta_problems_spec(walked.definitions, walked.namespaces) + graph_problems(
        defs,
        walked.namespaces,
        defs.len() as int,
    ) + cs.map_values(|c: Seq<usize>| cycle_view(defs, c))
}

/// Whether `cs` lists the cycles of the parsed file's reference graph.
pub open spec fn cycles_of(bytes: Seq<u8>, document: TomlTable, id: Seq<char>, cs: Seq<Seq<usize>>) -> bool {
    cycle_report(next_spec(with_id(walk_spec(bytes, document).definitions, id)), cs)
}

/// Loading the theme file `path`, whose filename minus `.toml` is `stem`, holding `chars`
/// (as bytes, `bytes`); `cs` lists the cycles of its reference graph.
pub open spec fn theme_outcome(
    path: Seq<char>,
    stem: Seq<char>,
    chars: Seq<char>,
    bytes: Seq<u8>,
    cs: Seq<Seq<usize>>,
) -> Result<ThemeView, ThemeErrorView> {
    if !is_segment_spec(stem) {
        Err(ThemeErrorView::Id { path, id: stem })
    } else {
        match toml_document(chars) {
            Err(error) => Err(ThemeErrorView::Syntax { path, message: error.message@ }),
            Ok(document) => {
                let problems = theme_problems(bytes, document, stem, cs);
                if problems.len() > 0 {
                    Err(ThemeErrorView::Invalid { path, problems: sort_by_line(problems) })
                } else {
                    let defs = with_id(walk_spec(bytes, document).definitions, stem);
                    let tokens = pairs_map(resolved_pairs(defs));
                    let line = match lookup(defs, meta_path(variant_key())) {
                        Some(d) => d.1,
                        None => 0usize,
                    };
                    match metadata_spec(tokens, line) {
                        Ok((name, variant)) => Ok(ThemeView { id: stem, name, variant, tokens }),
                        Err(problem) => Err(ThemeErrorView::Invalid { path, problems: seq![problem] }),
                    }
                }
            },
        }
    }
}

/// Whether `cs` is what a file with that stem and text needs to list its cycles: anything
/// when it never gets as far as the reference graph.
pub open spec fn cycles_fit(stem: Seq<char>, chars: Seq<char>, bytes: Seq<u8>, cs: Seq<Seq<usize>>) -> bool {
    is_segment_spec(stem) && toml_document(chars) is Ok ==> cycles_of(
        bytes,
        toml_document(chars)->Ok_0,
        stem,
        cs,
    )
}

/// The characters of `meta.name`'s key, `meta.variant`'s and `meta.id`'s.
fn meta_word(which: u8) -> (word: Vec<char>)
    ensures
        which == 0 ==> word@ == name_text(),
        which == 1 ==> word@ == variant_key(),
        which > 1 ==> word@ == seq!['i', 'd'],
{
    let mut word = Vec::new();
    if which == 0 {
        word.push('n');
        word.push('a');
        word.push('m');
        word.push('e');
        proof {
            assert(word@ =~= name_text());
        }
    } else if which == 1 {
        word.push('v');
        word.push('a');
        word.push('r');
        word.push('i');
        word.push('a');
        word.push('n');
        word.push('t');
        proof {
            assert(word@ =~= variant_key());
        }
    } else {
        word.push('i');
        word.push('d');
        proof {
            assert(word@ =~= seq!['i', 'd']);
        }
    }
    word
}

/// `meta.key`.
fn meta_token(key: &[char]) -> (path: TokenPath)
    requires
        crate::token::is_segment_spec(key@),
    ensures
        path@ == meta_path(key@),
{
    let mut chars = Vec::new();
    chars.push('m');
    chars.push('e');
    chars.push('t');
    chars.push('a');
    chars.push('.');
    crate::text::push_all(&mut chars, key);
    proof {
        assert(chars@ =~= meta_path(key@));
        crate::token::lemma_join_is_path(meta_text(), key@);
        crate::token::lemma_segment_is_path(meta_text());
    }
    TokenPath::from_chars(chars.as_slice())
}

/// `meta.name` and `meta.variant`, read back out of the resolved tokens.
///
/// Checking `[meta]` has already established that both keys are written and that `variant`
/// reads `dark` or `light`, so nothing here is reachable from a theme file that got this far.
/// It is reported rather than panicked on. `line` is the line `variant` is written on.
fn metadata(tokens: &Tokens, line: usize) -> (result: Result<(String, Variant), Problem>)
    ensures
        match (result, metadata_spec(tokens@, line)) {
            (Ok((name, variant)), Ok((n, v))) => name@ == n && variant == v,
            (Err(p), Err(q)) => p@ == q,
            _ => false,
        },
{
    let name_key = meta_word(0);
    let variant_key_chars = meta_word(1);
    proof {
        assert(is_segment_spec(name_key@)) by {
            assert(forall|i: int| 0 <= i < name_key@.len() ==> #[trigger] crate::token::segment_char(name_key@[i]));
        }
        assert(is_segment_spec(variant_key_chars@)) by {
            assert(forall|i: int| 0 <= i < variant_key_chars@.len() ==> #[trigger] crate::token::segment_char(variant_key_chars@[i]));
        }
    }
    let name_path = meta_token(name_key.as_slice());
    let variant_path = meta_token(variant_key_chars.as_slice());
    match (tokens.get(&name_path), tokens.get(&variant_path)) {
        (Some(name), Some(value)) => {
            let chars = chars_of(value);
            match Variant::parse_chars(chars.as_slice()) {
                Some(variant) => Ok((name.to_owned(), variant)),
                None => Err(Problem::MetaVariant { line, value: value.to_owned() }),
            }
        },
        (None, _) => Err(Problem::MetaMissing { key: string_of(name_key.as_slice()) }),
        (_, None) => Err(Problem::MetaMissing { key: string_of(variant_key_chars.as_slice()) }),
    }
}

impl Theme {
    /// Parses `source` as the theme stored at `path`, whose filename minus `.toml` is `stem`.
    ///
    /// Returns every problem found, in one pass: the identifier, the TOML, then everything
    /// wrong with the values, `[meta]` and the references, ordered by line.
    pub fn parse_named(path: &str, stem: &str, source: &str) -> (result: Result<Theme, ThemeError>)
        ensures
            exists|cs: Seq<Seq<usize>>|
                cycles_fit(stem@, source@, source.spec_bytes(), cs) && #[trigger] outcome_view(result)
                    == theme_outcome(path@, stem@, source@, source.spec_bytes(), cs),
    {
        let id = match ThemeId::parse(stem) {
            Some(id) => id,
            None => {
                let result = Err(ThemeError::Id { path: path.to_owned(), id: stem.to_owned() });
                proof {
                    assert(cycles_fit(stem@, source@, source.spec_bytes(), Seq::empty()));
                    assert(outcome_view(result) == theme_outcome(path@, stem@, source@, source.spec_bytes(), Seq::empty()));
                }
                return result;
            },
        };
        let document = match parse_toml(source) {
            Ok(document) => document,
            Err(error) => {
                let result = Err(ThemeError::Syntax { path: path.to_owned(), message: error.message });
                proof {
                    assert(cycles_fit(stem@, source@, source.spec_bytes(), Seq::empty()));
                    assert(outcome_view(result) == theme_outcome(path@, stem@, source@, source.spec_bytes(), Seq::empty()));
                }
                return result;
            },
        };
        let ghost bytes = source.spec_bytes();
        let walked = walk(source, &document);
        let ghost w = walked.walked_view();
        let Walked { definitions, namespaces, problems } = walked;
        let mut definitions = definitions;
        let mut problems = problems;
        let mut meta = meta_problems(&definitions, &namespaces);
        let ghost base = problem_views(problems@);
        let ghost meta_views = problem_views(meta@);
        let ghost meta_items = meta@;
        let ghost base_items = problems@;
        problems.append(&mut meta);
        proof {
            assert(problems@ == base_items + meta_items);
            assert(problem_views(problems@) =~= base + meta_views);
        }
        let id_key = meta_word(2);
        proof {
            assert(is_segment_spec(id_key@)) by {
                assert(forall|i: int| 0 <= i < id_key@.len() ==> #[trigger] crate::token::segment_char(id_key@[i]));
            }
        }
        let id_path = meta_token(id_key.as_slice());
        let ghost before_id = definitions.view_entries();
        let id_definition = Definition { value: RawValue::Literal(stem.to_owned()), line: 0 };
        proof {
            crate::theme::walk::lemma_insert_views(before_id, id_path@, id_definition);
        }
        definitions.insert(id_path, id_definition);
        let ghost defs = defs_of(definitions);
        proof {
            assert(defs == with_id(w.definitions, stem@));
        }
        let graph = crate::theme::resolve::problems(&definitions, &namespaces);
        let ghost cs = choose|cs: Seq<Seq<usize>>|
            cycle_report(next_spec(defs), cs) && #[trigger] problem_views(graph@) == graph_problems(
                defs,
                namespaces.view_entries(),
                defs.len() as int,
            ) + cs.map_values(|c: Seq<usize>| cycle_view(defs, c));
        let ghost with_meta = problem_views(problems@);
        let ghost graph_views = problem_views(graph@);
        let ghost graph_items = graph@;
        let ghost items = problems@;
        let mut graph = graph;
        problems.append(&mut graph);
        proof {
            assert(problems@ == items + graph_items);
            assert(problem_views(problems@) =~= with_meta + graph_views);
        }
        proof {
            assert(problem_views(problems@) =~= theme_problems(bytes, document, stem@, cs));
            assert(cycles_fit(stem@, source@, bytes, cs));
        }
        if problems.len() > 0 {
            let sorted = sorted_by_line(problems);
            let result = Err(ThemeError::Invalid { path: path.to_owned(), problems: sorted });
            proof {
                assert(outcome_view(result) == theme_outcome(path@, stem@, source@, bytes, cs));
            }
            return result;
        }
        let tokens = crate::theme::resolve::resolve(&definitions);
        let variant_word = meta_word(1);
        proof {
            assert(is_segment_spec(variant_word@)) by {
                assert(forall|i: int| 0 <= i < variant_word@.len() ==> #[trigger] crate::token::segment_char(variant_word@[i]));
            }
            lemma_lookup_views(definitions.view_entries(), meta_path(variant_key()));
        }
        let variant_path = meta_token(variant_word.as_slice());
        let line = match definitions.get(&variant_path) {
            Some(definition) => definition.line,
            None => 0,
        };
        let result = match metadata(&tokens, line) {
            Ok((name, variant)) => Ok(Theme { id, name, variant, tokens }),
            Err(problem) => {
                let mut listed = Vec::new();
                listed.push(problem);
                proof {
                    assert(problem_views(listed@) =~= seq![listed@[0]@]);
                }
                Err(ThemeError::Invalid { path: path.to_owned(), problems: listed })
            },
        };
        proof {
            assert(outcome_view(result) == theme_outcome(path@, stem@, source@, bytes, cs));
        }
        result
    }

    /// The theme's identifier.
    pub fn id(&self) -> (id: &ThemeId)
        ensures
            id@ == self@.id,
    {
        &self.id
    }

    /// The theme's display name, `meta.name`.
    pub fn name(&self) -> (name: &str)
        ensures
            name@ == self@.name,
    {
        self.name.as_str()
    }

    /// The background the theme is written for, `meta.variant`.
    pub fn variant(&self) -> (variant: Variant)
        ensures
            variant == self@.variant,
    {
        self.variant
    }

    /// Every token the theme defines, resolved.
    pub fn tokens(&self) -> (tokens: &Tokens)
        ensures
            tokens@ == self@.tokens,
    {
        &self.tokens
    }
}

/// What a theme error says.
pub open spec fn theme_error_text(error: ThemeErrorView) -> Seq<char> {
    match error {
        ThemeErrorView::Syntax { path, message } => path + ": "@ + message,
        ThemeErrorView::Id { path, id } => path + ": `"@ + id
            + "` is not a theme identifier: lowercase, digits, internal hyphens"@,
        ThemeErrorView::Read { path, message } => path + ": "@ + message,
        ThemeErrorView::Invalid { path, problems } => path + ": invalid theme\n"@ + listed_text(problems),
    }
}

impl ThemeError {
    /// What the error says: the file, then what is wrong with it.
    pub fn message(&self) -> (text: String)
        ensures
            text@ == theme_error_text(self@),
    {
        let mut out: Vec<char> = Vec::new();
        match self {
            ThemeError::Syntax { path, message } => {
                push_str(&mut out, path.as_str());
                push_str(&mut out, ": ");
                push_str(&mut out, message.as_str());
            },
            ThemeError::Id { path, id } => {
                push_str(&mut out, path.as_str());
                push_str(&mut out, ": `");
                push_str(&mut out, id.as_str());
                push_str(&mut out, "` is not a theme identifier: lowercase, digits, internal hyphens");
            },
            ThemeError::Read { path, message } => {
                push_str(&mut out, path.as_str());
                push_str(&mut out, ": ");
                push_str(&mut out, message.as_str());
            },
            ThemeError::Invalid { path, problems } => {
                push_str(&mut out, path.as_str());
                push_str(&mut out, ": invalid theme\n");
                let text = listed(problems);
                push_str(&mut out, text.as_str());
            },
        }
        proof {
            assert(out@ =~= theme_error_text(self@));
        }
        string_of(out.as_slice())
    }
}

/// The text after the last `/` of `path`.
pub open spec fn file_name_of(path: Seq<char>) -> Seq<char> {
    crate::text::split_on(path, '/').last()
}

/// Whether every platform reads the last component of `path` as the same file name: the
/// path holds no backslash and no `:`, and what follows its last `/` is a name other than
/// `.` and `..`.
pub open spec fn plain_path(path: Seq<char>) -> bool {
    &&& !path.contains('\\')
    &&& !path.contains(':')
    &&& file_name_of(path).len() > 0
    &&& file_name_of(path) != seq!['.']
    &&& file_name_of(path) != seq!['.', '.']
}

/// Where the last `.` of `name` stands before `i`, or `-1`.
pub open spec fn final_dot(name: Seq<char>, i: int) -> int
    decreases i,
{
    if i <= 0 {
        -1
    } else if name[i - 1] == '.' {
        i - 1
    } else {
        final_dot(name, i - 1)
    }
}

/// The stem of a file name, as `Path::file_stem` documents it: the whole name when it holds
/// no `.` or only a leading one, and otherwise the part before the final `.`.
pub open spec fn name_stem(name: Seq<char>) -> Seq<char> {
    let dot = final_dot(name, name.len() as int);
    if dot <= 0 {
        name
    } else {
        name.take(dot)
    }
}

/// The stem of the last component of `path` (`std::path::Path::file_stem`), read as text,
/// or empty when there is none. How a path splits into components is the platform's, so the
/// contract speaks only of an empty path, which has no file name, and of a plain path, whose
/// file name is what follows its last `/` on every platform; of other paths it says nothing.
#[verifier::external_body]
pub(crate) fn file_stem(path: &str) -> (stem: String)
    ensures
        path@.len() == 0 ==> stem@.len() == 0,
        plain_path(path@) ==> stem@ == name_stem(file_name_of(path@)),
{
    std::path::Path::new(path).file_stem().unwrap_or_default().to_string_lossy().into_owned()
}

impl Theme {
    /// Parses `source` as the theme stored at `path`: its identifier is the filename minus
    /// `.toml`, the file stem. For a plain path that is what follows its last `/` up to the
    /// final `.`; for another path it is whatever the platform splits off.
    pub fn parse(path: &str, source: &str) -> (result: Result<Theme, ThemeError>)
        ensures
            exists|stem: Seq<char>, cs: Seq<Seq<usize>>|
                cycles_fit(stem, source@, source.spec_bytes(), cs) && #[trigger] theme_outcome(
                    path@,
                    stem,
                    source@,
                    source.spec_bytes(),
                    cs,
                ) == outcome_view(result),
            plain_path(path@) ==> exists|cs: Seq<Seq<usize>>|
                cycles_fit(name_stem(file_name_of(path@)), source@, source.spec_bytes(), cs)
                    && #[trigger] theme_outcome(
                    path@,
                    name_stem(file_name_of(path@)),
                    source@,
                    source.spec_bytes(),
                    cs,
                ) == outcome_view(result),
    {
        let stem = file_stem(path);
        let result = Theme::parse_named(path, stem.as_str(), source);
        proof {
            let cs = choose|cs: Seq<Seq<usize>>|
                cycles_fit(stem@, source@, source.spec_bytes(), cs) && #[trigger] outcome_view(result)
                    == theme_outcome(path@, stem@, source@, source.spec_bytes(), cs);
            assert(cycles_fit(stem@, source@, source.spec_bytes(), cs) && theme_outcome(
                path@,
                stem@,
                source@,
                source.spec_bytes(),
                cs,
            ) == outcome_view(result));
        }
        result
    }
}

/// The definitions a theme file with identifier `stem` resolves, `meta.id` among them.
pub open spec fn theme_defs(bytes: Seq<u8>, chars: Seq<char>, stem: Seq<char>) -> Defs {
    with_id(walk_spec(bytes, toml_document(chars)->Ok_0).definitions, stem)
}

proof fn lemma_lookup_found<V>(entries: Seq<(Seq<char>, V)>, key: Seq<char>)
    requires
        lookup(entries, key) is Some,
    ensures
        exists|m: int| 0 <= m < entries.len() && #[trigger] entries[m] == (key, lookup(entries, key)->0),
    decreases entries.len(),
{
    if entries[0].0 != key {
        lemma_lookup_found(entries.drop_first(), key);
        let m = choose|m: int| 0 <= m < entries.drop_first().len() && #[trigger] entries.drop_first()[m] == (key, lookup(entries, key)->0);
        assert(entries[m + 1] == entries.drop_first()[m]);
    } else {
        assert(entries[0] == (key, lookup(entries, key)->0));
    }
}

proof fn lemma_no_graph_problems(defs: Defs, namespaces: Seq<(Seq<char>, usize)>, k: int)
    requires
        0 <= k <= defs.len(),
        graph_problems(defs, namespaces, k).len() == 0,
    ensures
        forall|u: int| 0 <= u < k && (#[trigger] defs[u].1.0) is Reference ==> key_index(defs, defs[u].1.0->Reference_0) is Some,
    decreases k,
{
    if k > 0 {
        lemma_no_graph_problems(defs, namespaces, k - 1);
    }
}

/// Loading a theme: it loads only when reading it found no problem, and then its identifier
/// and `meta.id` are the file's stem and every token holds the literal its chain of
/// references ends in; otherwise every problem found is reported, at least one, ordered by
/// line; and each reference cycle of the file is reported once, from the member written first.
pub proof fn lemma_theme_outcome(path: Seq<char>, stem: Seq<char>, chars: Seq<char>, bytes: Seq<u8>, cs: Seq<Seq<usize>>)
    requires
        cycles_fit(stem, chars, bytes, cs),
    ensures
        theme_outcome(path, stem, chars, bytes, cs) matches Ok(t) ==> {
            &&& is_segment_spec(stem)
            &&& toml_document(chars) is Ok
            &&& theme_problems(bytes, toml_document(chars)->Ok_0, stem, cs).len() == 0
            &&& t.id == stem
        },
        theme_defs(bytes, chars, stem).len() <= usize::MAX ==> (theme_outcome(path, stem, chars, bytes, cs) matches Ok(t) ==> {
            &&& t.tokens.contains_key(meta_id_path())
            &&& t.tokens[meta_id_path()] == stem
            &&& forall|i: usize|
                i < theme_defs(bytes, chars, stem).len() ==> #[trigger] chain_ends(theme_defs(bytes, chars, stem), t.tokens, i)
        }),
        theme_outcome(path, stem, chars, bytes, cs) matches Err(ThemeErrorView::Invalid { problems, .. }) ==> problems.len() > 0
            && in_line_order(problems),
        is_segment_spec(stem) && toml_document(chars) is Ok && theme_problems(bytes, toml_document(chars)->Ok_0, stem, cs).len() > 0
            ==> theme_outcome(path, stem, chars, bytes, cs) == Err::<ThemeView, ThemeErrorView>(ThemeErrorView::Invalid {
            path,
            problems: sort_by_line(theme_problems(bytes, toml_document(chars)->Ok_0, stem, cs)),
        }),
        is_segment_spec(stem) && toml_document(chars) is Ok ==> {
            &&& cycle_report(next_spec(theme_defs(bytes, chars, stem)), cs)
            &&& forall|i: int|
                0 <= i < cs.len() ==> theme_problems(bytes, toml_document(chars)->Ok_0, stem, cs).contains(
                    cycle_view(theme_defs(bytes, chars, stem), #[trigger] cs[i]),
                )
        },
{
    if is_segment_spec(stem) && toml_document(chars) is Ok {
        let document = toml_document(chars)->Ok_0;
        let problems = theme_problems(bytes, document, stem, cs);
        let walked = walk_spec(bytes, document);
        let defs = theme_defs(bytes, chars, stem);
        let front = walked.problems + meta_problems_spec(walked.definitions, walked.namespaces) + graph_problems(
            defs,
            walked.namespaces,
            defs.len() as int,
        );
        assert(problems == front + cs.map_values(|c: Seq<usize>| cycle_view(defs, c)));
        assert forall|i: int| 0 <= i < cs.len() implies problems.contains(cycle_view(defs, #[trigger] cs[i])) by {
            assert(problems[front.len() + i] == cycle_view(defs, cs[i]));
        }
        lemma_sort_by_line_keeps(problems);
        if problems.len() == 0 {
            lemma_walk_sorted(bytes, document);
            lemma_sorted_insert_sorted(walked.definitions, meta_id_path(), (RawView::Literal(stem), 0usize));
            assert(cs.len() == 0);
            assert(graph_problems(defs, walked.namespaces, defs.len() as int).len() == 0);
            lemma_no_graph_problems(defs, walked.namespaces, defs.len() as int);
            let next = next_spec(defs);
            assert forall|u: usize| u < defs.len() implies !#[trigger] on_cycle(next, u) by {
                assert(!reported(cs, u));
            }
            lemma_chains_end(defs);
            if defs.len() <= usize::MAX {
                lemma_lookup_insert(walked.definitions, meta_id_path(), (RawView::Literal(stem), 0usize), meta_id_path());
                lemma_lookup_found(defs, meta_id_path());
                let m = choose|m: int| 0 <= m < defs.len() && #[trigger] defs[m] == (meta_id_path(), lookup(defs, meta_id_path())->0);
                let mu = m as usize;
                assert(defs[mu as int] == defs[m]);
                assert(chain_ends(defs, pairs_map(resolved_pairs(defs)), mu));
                let (k, j) = choose|k: nat, j: usize|
                    #![trigger reach(next, mu, k), defs[j as int]]
                    reach(next, mu, k) == Some(j) && j < defs.len() && defs[j as int].1.0 is Literal
                        && pairs_map(resolved_pairs(defs)).contains_key(defs[mu as int].0) && pairs_map(resolved_pairs(defs))[defs[mu as int].0]
                        == defs[j as int].1.0->Literal_0;
                assert(defs == sorted_insert(walked.definitions, meta_id_path(), (RawView::Literal(stem), 0usize)));
                assert(lookup(defs, meta_id_path()) == Some((RawView::Literal(stem), 0usize)));
                assert(defs[mu as int].1.0 == RawView::Literal(stem));
                assert(next[mu as int] is None);
                if k > 0 {
                    assert(reach(next, mu, 0) == Some(mu));
                    assert(reach(next, mu, 1) == None::<usize>);
                    lemma_ended(next, mu, 1, k);
                }
            }
        }
    }
}

} // verus!
