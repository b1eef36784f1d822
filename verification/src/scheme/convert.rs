//! Turning an upstream colour scheme into the theme model.
//!
//! The converter takes the system and the bytes. It knows nothing about where the bytes came
//! from, so a file on disk and a scheme fetched over the network go down the same path. The
//! system is the caller's to supply: it is the directory the scheme is filed under, and the
//! file's own `system` key is not read.

use vstd::prelude::*;
use vstd::utf8::{decode_utf8, valid_utf8};

use crate::path_map::{lookup, sorted_insert, PathMap, lemma_lookup_insert};
use crate::scheme::yaml::{document, document_spec, required, required_spec, YamlNode};
use crate::scheme::{system_name, Problem, ProblemView, System};
use crate::text::{push_str, string_of};
use crate::theme::{channel, is_hex_literal, rgb, Variant};
use crate::token::{pairs_map, TokenPath};

pub mod base16;
pub mod tinted8;

use crate::scheme::convert::base16::{base16_spec, convert_base16, Family};
use crate::scheme::convert::tinted8::{convert_tinted8, tinted8_spec};

verus! {

/// The map the entries of a path map hold, values as plain text.
pub open spec fn map_of(entries: Seq<(Seq<char>, String)>) -> Map<Seq<char>, Seq<char>> {
    Map::new(|k: Seq<char>| lookup(entries, k) is Some, |k: Seq<char>| lookup(entries, k)->0@)
}

/// Inserting into a path map inserts into the map it holds.
pub proof fn lemma_map_of_insert(entries: Seq<(Seq<char>, String)>, key: Seq<char>, value: String)
    ensures
        map_of(sorted_insert(entries, key, value)) == map_of(entries).insert(key, value@),
{
    assert forall|k: Seq<char>| #[trigger] lookup(sorted_insert(entries, key, value), k) == if k == key {
        Some(value)
    } else {
        lookup(entries, k)
    } by {
        lemma_lookup_insert(entries, key, value, k);
    }
    assert(map_of(sorted_insert(entries, key, value)) =~= map_of(entries).insert(key, value@));
}

/// A scheme converted to the theme model.
///
/// This is not a theme and not a file. `meta.id` is absent: the identifier is the theme's
/// filename, which the converter does not choose.
#[derive(Debug)]
pub struct Converted {
    name: String,
    variant: Variant,
    tokens: PathMap<String>,
}

/// A converted scheme as plain values.
pub struct ConvertedView {
    pub name: Seq<char>,
    pub variant: Variant,
    pub tokens: Map<Seq<char>, Seq<char>>,
}

impl View for Converted {
    type V = ConvertedView;

    closed spec fn view(&self) -> ConvertedView {
        ConvertedView {
            name: self.name@,
            variant: self.variant,
            tokens: map_of(self.tokens.view_entries()),
        }
    }
}

impl Converted {
    #[verifier::type_invariant]
    closed spec fn well_formed(self) -> bool {
        self.tokens.well_formed()
    }

    /// A converted scheme of these parts.
    pub fn new(name: String, variant: Variant, tokens: PathMap<String>) -> (converted: Converted)
        requires
            tokens.well_formed(),
        ensures
            converted@ == (ConvertedView {
                name: name@,
                variant,
                tokens: map_of(tokens.view_entries()),
            }),
    {
        Converted { name, variant, tokens }
    }

    /// The upstream display name, verbatim, for `meta.name`.
    pub fn name(&self) -> (name: &str)
        ensures
            name@ == self@.name,
    {
        self.name.as_str()
    }

    /// The background the scheme is written for, for `meta.variant`.
    pub fn variant(&self) -> (variant: Variant)
        ensures
            variant == self@.variant,
    {
        self.variant
    }

    /// Every token the theme file will hold, `meta.name` and `meta.variant` aside, in path
    /// order.
    pub fn tokens(&self) -> (tokens: &PathMap<String>)
        ensures
            tokens.well_formed(),
            map_of(tokens.view_entries()) == self@.tokens,
    {
        proof {
            use_type_invariant(self);
        }
        &self.tokens
    }

    /// The value `path` holds, or `None` when the conversion wrote no such token.
    pub fn get(&self, path: &TokenPath) -> (value: Option<&str>)
        ensures
            value is Some <==> self@.tokens.contains_key(path@),
            value matches Some(v) ==> v@ == self@.tokens[path@],
    {
        proof {
            use_type_invariant(self);
        }
        match self.tokens.get(path) {
            Some(value) => Some(value.as_str()),
            None => None,
        }
    }
}

/// Converting an upstream scheme failed.
#[derive(Debug)]
pub enum ConvertError {
    /// The bytes are not UTF-8.
    Utf8 {
        /// Where the decode failed, as the decoder reports it.
        message: String,
    },
    /// The YAML does not say what converting it needs.
    Invalid {
        /// What the scheme does not say.
        source: Problem,
    },
    /// The system is one vanadis reads but does not convert yet.
    Unsupported {
        /// The system the caller asked for.
        system: System,
    },
    /// The palette is missing a slot the scheme's own system requires.
    Slot {
        /// The system the slot is required by.
        system: System,
        /// The slot that is not written.
        slot: String,
    },
    /// A colour is not `#rrggbb`.
    Hex {
        /// Where it is written.
        slot: String,
        /// The value as the scheme writes it.
        value: String,
    },
    /// A key that cannot become a token segment.
    Segment {
        /// The key, dotted from the document's root.
        key: String,
        /// The part of it that is not a segment.
        segment: String,
    },
    /// A key using the segment a theming property's own colour is written under.
    Reserved {
        /// The key, dotted from the document's root.
        key: String,
        /// The reserved segment.
        segment: &'static str,
    },
    /// One theming property reached by two spellings.
    Duplicate {
        /// The token both spellings name.
        path: TokenPath,
    },
}

/// A conversion error as plain values.
pub enum ConvertErrorView {
    Utf8(Seq<char>),
    Invalid(ProblemView),
    Unsupported(System),
    Slot(System, Seq<char>),
    Hex(Seq<char>, Seq<char>),
    Segment(Seq<char>, Seq<char>),
    Reserved(Seq<char>, Seq<char>),
    Duplicate(Seq<char>),
}

impl View for ConvertError {
    type V = ConvertErrorView;

    open spec fn view(&self) -> ConvertErrorView {
        match self {
            ConvertError::Utf8 { message } => ConvertErrorView::Utf8(message@),
            ConvertError::Invalid { source } => ConvertErrorView::Invalid(source@),
            ConvertError::Unsupported { system } => ConvertErrorView::Unsupported(*system),
            ConvertError::Slot { system, slot } => ConvertErrorView::Slot(*system, slot@),
            ConvertError::Hex { slot, value } => ConvertErrorView::Hex(slot@, value@),
            ConvertError::Segment { key, segment } => ConvertErrorView::Segment(key@, segment@),
            ConvertError::Reserved { key, segment } => ConvertErrorView::Reserved(key@, segment@),
            ConvertError::Duplicate { path } => ConvertErrorView::Duplicate(path@),
        }
    }
}

/// A result with its parts as plain values.
pub open spec fn outcome(result: Result<Converted, ConvertError>) -> Result<ConvertedView, ConvertErrorView> {
    match result {
        Ok(converted) => Ok(converted@),
        Err(error) => Err(error@),
    }
}

/// The sentence a conversion error is reported with; the decoder's own words for bytes that
/// are not UTF-8.
pub open spec fn convert_text(e: ConvertErrorView) -> Seq<char> {
    match e {
        ConvertErrorView::Utf8(decoder) => "the scheme is not UTF-8: "@ + decoder,
        ConvertErrorView::Invalid(p) => crate::scheme::problem_text(p),
        ConvertErrorView::Unsupported(system) => "`"@ + system_name(system) + "` is not a scheme system vanadis converts"@,
        ConvertErrorView::Slot(system, slot) => "the "@ + system_name(system)
            + " palette does not carry `"@ + slot + "`"@,
        ConvertErrorView::Hex(slot, value) => "`"@ + slot + "` is `"@ + value
            + "`, which is not `#rrggbb`"@,
        ConvertErrorView::Segment(key, segment) => "`"@ + key + "` holds `"@ + segment
            + "`, which is not a token segment"@,
        ConvertErrorView::Reserved(key, segment) => "`"@ + key + "` uses `"@ + segment
            + "`, which vanadis reserves for a property's own colour"@,
        ConvertErrorView::Duplicate(path) => "the scheme writes `"@ + path
            + "` twice, once dotted and once nested"@,
    }
}

impl ConvertError {
    /// The sentence the error is reported with.
    pub fn message(&self) -> (text: String)
        ensures
            text@ == convert_text(self@),
    {
        let mut chars: Vec<char> = Vec::new();
        proof {
            reveal_strlit("the scheme is not UTF-8: ");
            reveal_strlit("the ");
            reveal_strlit("` is not a scheme system vanadis converts");
            reveal_strlit(" palette does not carry `");
            reveal_strlit("`");
            reveal_strlit("` is `");
            reveal_strlit("`, which is not `#rrggbb`");
            reveal_strlit("` holds `");
            reveal_strlit("`, which is not a token segment");
            reveal_strlit("` uses `");
            reveal_strlit("`, which vanadis reserves for a property's own colour");
            reveal_strlit("the scheme writes `");
            reveal_strlit("` twice, once dotted and once nested");
        }
        match self {
            ConvertError::Utf8 { message } => {
                push_str(&mut chars, "the scheme is not UTF-8: ");
                push_str(&mut chars, message.as_str());
            },
            ConvertError::Invalid { source } => {
                let text = source.message();
                push_str(&mut chars, text.as_str());
            },
            ConvertError::Unsupported { system } => {
                push_str(&mut chars, "`");
                push_str(&mut chars, system.as_str());
                push_str(&mut chars, "` is not a scheme system vanadis converts");
            },
            ConvertError::Slot { system, slot } => {
                push_str(&mut chars, "the ");
                push_str(&mut chars, system.as_str());
                push_str(&mut chars, " palette does not carry `");
                push_str(&mut chars, slot.as_str());
                push_str(&mut chars, "`");
            },
            ConvertError::Hex { slot, value } => {
                push_str(&mut chars, "`");
                push_str(&mut chars, slot.as_str());
                push_str(&mut chars, "` is `");
                push_str(&mut chars, value.as_str());
                push_str(&mut chars, "`, which is not `#rrggbb`");
            },
            ConvertError::Segment { key, segment } => {
                push_str(&mut chars, "`");
                push_str(&mut chars, key.as_str());
                push_str(&mut chars, "` holds `");
                push_str(&mut chars, segment.as_str());
                push_str(&mut chars, "`, which is not a token segment");
            },
            ConvertError::Reserved { key, segment } => {
                push_str(&mut chars, "`");
                push_str(&mut chars, key.as_str());
                push_str(&mut chars, "` uses `");
                push_str(&mut chars, segment);
                push_str(&mut chars, "`, which vanadis reserves for a property's own colour");
            },
            ConvertError::Duplicate { path } => {
                push_str(&mut chars, "the scheme writes `");
                push_str(&mut chars, path.as_str());
                push_str(&mut chars, "` twice, once dotted and once nested");
            },
        }
        proof {
            assert(chars@ =~= convert_text(self@));
        }
        string_of(chars.as_slice())
    }
}

/// The system a scheme's own `system` key names, or what keeps it from naming one.
pub open spec fn declared_spec(text: Seq<char>) -> Result<System, ProblemView> {
    match document_spec(text) {
        Err(p) => Err(p),
        Ok(document) => match required_spec(document, "system"@) {
            Err(p) => Err(p),
            Ok(name) => if name == "base16"@ {
                Ok(System::Base16)
            } else if name == "base24"@ {
                Ok(System::Base24)
            } else if name == "tinted8"@ {
                Ok(System::Tinted8)
            } else {
                Err(ProblemView::System(name))
            },
        },
    }
}

/// The system a loose scheme declares itself written for.
///
/// A scheme out of the cache takes its system from the directory it is filed under; a file
/// or a URL has none, so its own `system` key is read.
pub fn declared_system(text: &str) -> (result: Result<System, Problem>)
    ensures
        match (result, declared_spec(text@)) {
            (Ok(s), Ok(expected)) => s == expected,
            (Err(p), Err(expected)) => p@ == expected,
            _ => false,
        },
{
    proof {
        reveal_strlit("system");
        reveal_strlit("base16");
        reveal_strlit("base24");
        reveal_strlit("tinted8");
    }
    let node = match document(text) {
        Ok(node) => node,
        Err(p) => return Err(p),
    };
    let name = match required(&node, "system") {
        Ok(name) => name,
        Err(p) => return Err(p),
    };
    let ghost expected = declared_spec(text@);
    proof {
        assert(document_spec(text@) == Ok::<YamlNode, ProblemView>(node));
        assert(required_spec(node, "system"@) == Ok::<Seq<char>, ProblemView>(name@));
    }
    match System::parse(name) {
        Some(system) => {
            proof {
                assert(system_name(system) == name@);
                assert("base16"@ != "base24"@ && "base16"@ != "tinted8"@ && "base24"@ != "tinted8"@) by {
                    assert("base16"@[5] != "base24"@[5]);
                    assert("base16"@.len() != "tinted8"@.len());
                    assert("base24"@.len() != "tinted8"@.len());
                }
            }
            Ok(system)
        },
        None => {
            let owned = name.to_owned();
            proof {
                assert(expected == Err::<System, ProblemView>(ProblemView::System(name@)));
            }
            Err(Problem::System(owned))
        },
    }
}

/// The description `std::str::from_utf8`'s error gives of bytes that are not UTF-8: where
/// the first bad sequence starts and how long it is, which the bytes alone decide.
pub uninterp spec fn utf8_error(bytes: Seq<u8>) -> Seq<char>;

/// Decodes `bytes` with `std::str::from_utf8`, which succeeds exactly on valid UTF-8 and
/// then holds the characters it encodes. The error is the decoder's own description, named
/// and not stated.
#[verifier::external_body]
pub(crate) fn utf8_text(bytes: &[u8]) -> (text: Result<&str, String>)
    ensures
        text is Ok <==> valid_utf8(bytes@),
        text matches Ok(t) ==> t@ == decode_utf8(bytes@),
        text matches Err(m) ==> m@ == utf8_error(bytes@),
{
    std::str::from_utf8(bytes).map_err(|error| error.to_string())
}

/// The channels of `value`, or the error naming `slot` when it is not `#rrggbb`.
pub open spec fn hex_spec(slot: Seq<char>, value: Seq<char>) -> Result<Seq<u8>, ConvertErrorView> {
    if is_hex_literal(value) {
        Ok(seq![channel(value, 1) as u8, channel(value, 3) as u8, channel(value, 5) as u8])
    } else {
        Err(ConvertErrorView::Hex(slot, value))
    }
}

/// `value` as red, green and blue, or [`ConvertError::Hex`] naming `slot`.
///
/// A hex literal is `#` and six hex digits in either case. Three-digit shorthand and
/// eight-digit `#rrggbbaa` are rejected rather than expanded or truncated, neither of which
/// the scheme asked for.
pub fn hex(slot: &str, value: &str) -> (result: Result<[u8; 3], ConvertError>)
    ensures
        match (result, hex_spec(slot@, value@)) {
            (Ok(c), Ok(expected)) => c@ == expected,
            (Err(e), Err(expected)) => e@ == expected,
            _ => false,
        },
{
    match rgb(value) {
        Some(channels) => Ok(channels),
        None => Err(ConvertError::Hex { slot: slot.to_owned(), value: value.to_owned() }),
    }
}

/// The lowercase hex digit for `d`, below sixteen.
pub open spec fn hex_digit(d: nat) -> char {
    if d < 10 {
        (d + 48) as char
    } else {
        (d + 87) as char
    }
}

/// `#rrggbb` in lowercase for red, green and blue.
pub open spec fn literal_spec(c: Seq<u8>) -> Seq<char> {
    seq![
        '#',
        hex_digit((c[0] / 16) as nat),
        hex_digit((c[0] % 16) as nat),
        hex_digit((c[1] / 16) as nat),
        hex_digit((c[1] % 16) as nat),
        hex_digit((c[2] / 16) as nat),
        hex_digit((c[2] % 16) as nat),
    ]
}

/// The lowercase hex digit for `d`.
fn hex_digit_char(d: u8) -> (c: char)
    requires
        d < 16,
    ensures
        c == hex_digit(d as nat),
{
    match d {
        0 => '0',
        1 => '1',
        2 => '2',
        3 => '3',
        4 => '4',
        5 => '5',
        6 => '6',
        7 => '7',
        8 => '8',
        9 => '9',
        10 => 'a',
        11 => 'b',
        12 => 'c',
        13 => 'd',
        14 => 'e',
        _ => 'f',
    }
}

/// Red, green and blue as the hex literal a theme file holds.
pub fn literal(channels: [u8; 3]) -> (text: String)
    ensures
        text@ == literal_spec(channels@),
{
    let mut chars: Vec<char> = Vec::new();
    chars.push('#');
    let mut i: usize = 0;
    while i < 3
        invariant
            i <= 3,
            chars@.len() == 1 + 2 * i,
            chars@[0] == '#',
            forall|j: int| 0 <= j < i ==> chars@[1 + 2 * j] == hex_digit((channels@[j] / 16) as nat)
                && chars@[2 + 2 * j] == hex_digit((channels@[j] % 16) as nat),
        decreases 3 - i,
    {
        chars.push(hex_digit_char(channels[i] / 16));
        chars.push(hex_digit_char(channels[i] % 16));
        i = i + 1;
    }
    proof {
        assert(chars@ =~= literal_spec(channels@));
    }
    string_of(chars.as_slice())
}

/// The sRGB luma of a colour, in ten-thousandths of a channel step: the coefficients on
/// the gamma-encoded channels, scaled to integers so nothing rounds.
pub open spec fn luma_spec(c: Seq<u8>) -> nat {
    (2126 * c[0] + 7152 * c[1] + 722 * c[2]) as nat
}

/// The luma of red, green and blue, on the scale `luma_spec` uses.
pub fn luma(channels: [u8; 3]) -> (weight: u32)
    ensures
        weight == luma_spec(channels@),
{
    2126 * (channels[0] as u32) + 7152 * (channels[1] as u32) + 722 * (channels[2] as u32)
}

/// Whether a background of these channels is light: its luma is above one half.
pub open spec fn is_light(c: Seq<u8>) -> bool {
    luma_spec(c) * 2 > 2550000
}

/// The variant a scheme states, or the one its background implies.
pub open spec fn variant_spec(written: Option<Seq<char>>, background: Seq<u8>) -> Result<Variant, ConvertErrorView> {
    match written {
        Some(text) => match crate::theme::variant_of(text) {
            Some(v) => Ok(v),
            None => Err(ConvertErrorView::Invalid(ProblemView::Variant(text))),
        },
        None => Ok(if is_light(background) { Variant::Light } else { Variant::Dark }),
    }
}

/// Which background a scheme is written for, taken from the scheme or read off its default
/// background.
///
/// An absent variant is inferred: light when the background's luma is above one half. A
/// written one that is neither `dark` nor `light` is a bug in the scheme and is reported.
pub fn variant(written: Option<&str>, background: [u8; 3]) -> (result: Result<Variant, ConvertError>)
    ensures
        match (result, variant_spec(
            match written {
                Some(t) => Some(t@),
                None => None,
            },
            background@,
        )) {
            (Ok(v), Ok(expected)) => v == expected,
            (Err(e), Err(expected)) => e@ == expected,
            _ => false,
        },
{
    match written {
        Some(text) => match Variant::parse(text) {
            Some(v) => Ok(v),
            None => Err(ConvertError::Invalid { source: Problem::Variant(text.to_owned()) }),
        },
        None => if luma(background) > 1275000 {
            Ok(Variant::Light)
        } else {
            Ok(Variant::Dark)
        },
    }
}

/// What converting `bytes` as a scheme of `system` gives: base16 and base24 are converted,
/// tinted8 is not converted yet.
pub open spec fn convert_spec(system: System, bytes: Seq<u8>) -> Result<ConvertedView, ConvertErrorView> {
    if !valid_utf8(bytes) {
        Err(ConvertErrorView::Utf8(utf8_error(bytes)))
    } else if system == System::Tinted8 {
        Err(ConvertErrorView::Unsupported(System::Tinted8))
    } else {
        read_spec(system, bytes)
    }
}

/// Converts the bytes of an upstream scheme of `system` into the theme model.
///
/// `system` is the caller's and not the file's. base16 and base24 are what this converts
/// today, both through the base16 family converter; tinted8 is
/// [`ConvertError::Unsupported`].
pub fn convert(system: System, bytes: &[u8]) -> (result: Result<Converted, ConvertError>)
    ensures
        outcome(result) == convert_spec(system, bytes@),
        valid_utf8(bytes@) && system == System::Tinted8 ==> result matches Err(
            ConvertError::Unsupported { system: System::Tinted8 },
        ),
{
    if let Err(message) = utf8_text(bytes) {
        return Err(ConvertError::Utf8 { message });
    }
    if let System::Tinted8 = system {
        return Err(ConvertError::Unsupported { system });
    }
    read_scheme(system, bytes)
}

/// What reading `bytes` as a scheme of `system` gives, tinted8 included.
pub open spec fn read_spec(system: System, bytes: Seq<u8>) -> Result<ConvertedView, ConvertErrorView> {
    if !valid_utf8(bytes) {
        Err(ConvertErrorView::Utf8(utf8_error(bytes)))
    } else {
        match document_spec(decode_utf8(bytes)) {
            Err(p) => Err(ConvertErrorView::Invalid(p)),
            Ok(document) => match system {
                System::Base16 => base16_spec(document, Family::Base16),
                System::Base24 => base16_spec(document, Family::Base24),
                System::Tinted8 => tinted8_spec(document),
            },
        }
    }
}

/// Reads the bytes of an upstream scheme of `system` into the theme model, tinted8 included:
/// base16 and base24 go through the base16 family converter, tinted8 through its own. The
/// scheme cache reads every system with it.
pub fn read_scheme(system: System, bytes: &[u8]) -> (result: Result<Converted, ConvertError>)
    ensures
        outcome(result) == read_spec(system, bytes@),
{
    let text = match utf8_text(bytes) {
        Ok(text) => text,
        Err(message) => return Err(ConvertError::Utf8 { message }),
    };
    let parsed = document(text);
    let document = match parsed {
        Ok(document) => document,
        Err(source) => return Err(ConvertError::Invalid { source }),
    };
    match system {
        System::Base16 => convert_base16(&document, Family::Base16),
        System::Base24 => convert_base16(&document, Family::Base24),
        System::Tinted8 => convert_tinted8(&document),
    }
}

} // verus!
