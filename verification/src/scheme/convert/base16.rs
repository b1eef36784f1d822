//! base16 and base24, which share a palette and differ only in how wide it is.
//!
//! base24 shares `base00`-`base0F` with base16 and adds eight slots. Six of them take the
//! terminal's bright slots 9 through 14, which is the whole departure: base16 has no
//! separate bright set, so it reads them through the fallback table the base24
//! specification publishes (`base12` to `base08`, `base13` to `base0A`, and so on). The
//! other two, `base10` and `base11`, land in `[colors]` and nothing points at them.

use vstd::prelude::*;

use crate::path_map::PathMap;
use crate::scheme::convert::{
    hex, hex_spec, lemma_map_of_insert, literal, literal_spec, map_of, variant, variant_spec,
    Converted, ConvertedView, ConvertError, ConvertErrorView, hex_digit,
};
use crate::scheme::yaml::{nested, nested_spec, optional, optional_spec, required, required_spec, YamlNode};
use crate::scheme::{Problem, System};
use crate::text::{push_str, string_of};
use crate::token::{is_segment_spec, joined, pairs_map, segment_char, TokenPath};
use crate::vocabulary::{ansi, ansi_path, known};

verus! {

/// Which member of the base16 family a scheme is written for.
#[derive(Debug, Clone, Copy, PartialEq, Eq, Structural)]
pub enum Family {
    /// base16: `base00` through `base0F`.
    Base16,
    /// base24: base16's sixteen, plus `base10` through `base17`.
    Base24,
}

/// The system a scheme of `family` is filed under.
pub open spec fn family_system(family: Family) -> System {
    match family {
        Family::Base16 => System::Base16,
        Family::Base24 => System::Base24,
    }
}

/// How many slots a scheme of `family` carries.
pub open spec fn slot_count(family: Family) -> nat {
    match family {
        Family::Base16 => 16,
        Family::Base24 => 24,
    }
}

/// The uppercase hex digit for `d`, below sixteen.
pub open spec fn upper_digit(d: nat) -> char {
    if d < 10 {
        (d + 48) as char
    } else {
        (d + 55) as char
    }
}

/// Slot `n` as the styling specification spells it: `base0A`.
pub open spec fn slot_name(n: nat) -> Seq<char> {
    "base"@ + seq![upper_digit(n / 16), upper_digit(n % 16)]
}

/// Slot `n` as a token segment: `base0a`.
pub open spec fn slot_segment(n: nat) -> Seq<char> {
    "base"@ + seq![hex_digit(n / 16), hex_digit(n % 16)]
}

/// The base16 slot a base24 slot falls back to, from the base24 specification's table.
pub open spec fn fallback(n: nat) -> nat {
    if n == 0x10 || n == 0x11 {
        0x00
    } else if n == 0x12 {
        0x08
    } else if n == 0x13 {
        0x0A
    } else if n == 0x14 {
        0x0B
    } else if n == 0x15 {
        0x0C
    } else if n == 0x16 {
        0x0D
    } else if n == 0x17 {
        0x0E
    } else {
        n
    }
}

/// The slot of `family` that supplies slot `n`: its own in base24, the fallback in base16.
pub open spec fn source(family: Family, n: nat) -> nat {
    match family {
        Family::Base24 => n,
        Family::Base16 => fallback(n),
    }
}

/// The terminal's sixteen slots, in order, as the base24 ANSI column names them.
pub open spec fn ansi_slots() -> Seq<nat> {
    seq![0x00, 0x08, 0x0B, 0x0A, 0x0D, 0x0E, 0x0C, 0x05, 0x03, 0x12, 0x14, 0x13, 0x16, 0x17, 0x15, 0x07]
}

/// The seventeen core `[role]` tokens and the slot each takes.
pub open spec fn role_slots() -> Seq<(Seq<char>, nat)> {
    seq![
        ("role.bg"@, 0x00nat),
        ("role.fg"@, 0x05nat),
        ("role.comment"@, 0x03nat),
        ("role.keyword"@, 0x0Enat),
        ("role.string"@, 0x0Bnat),
        ("role.error"@, 0x08nat),
        ("role.ok"@, 0x0Bnat),
        ("role.warn"@, 0x0Anat),
        ("role.visual"@, 0x0Dnat),
        ("role.linenr"@, 0x04nat),
        ("role.accent"@, 0x0Dnat),
        ("role.accent-alt"@, 0x0Cnat),
        ("role.accent-warm"@, 0x09nat),
        ("role.inactive"@, 0x03nat),
        ("role.border"@, 0x02nat),
        ("role.selection-bg"@, 0x02nat),
        ("role.hover-bg"@, 0x01nat),
    ]
}

/// `{{colors.<segment>}}`, the reference a theme file points at `[colors]` with.
pub open spec fn reference(segment: Seq<char>) -> Seq<char> {
    "{{colors."@ + segment + "}}"@
}

/// The colour slot `n` holds: the specification's spelling first, then the token
/// segment's, then the error.
pub open spec fn colour_spec(palette: YamlNode, family: Family, n: nat) -> Result<Seq<u8>, ConvertErrorView> {
    match optional_spec(palette, slot_name(n)) {
        Err(p) => Err(ConvertErrorView::Invalid(p)),
        Ok(Some(text)) => hex_spec(slot_name(n), text),
        Ok(None) => match optional_spec(palette, slot_segment(n)) {
            Err(p) => Err(ConvertErrorView::Invalid(p)),
            Ok(Some(text)) => hex_spec(slot_name(n), text),
            Ok(None) => Err(ConvertErrorView::Slot(family_system(family), slot_name(n))),
        },
    }
}

/// The colours of slots `n` onwards, or the first slot's error.
pub open spec fn colours_from(palette: YamlNode, family: Family, n: nat) -> Result<Seq<Seq<u8>>, ConvertErrorView>
    decreases slot_count(family) - n,
{
    if n >= slot_count(family) {
        Ok(Seq::empty())
    } else {
        match colour_spec(palette, family, n) {
            Err(e) => Err(e),
            Ok(c) => match colours_from(palette, family, n + 1) {
                Err(e) => Err(e),
                Ok(rest) => Ok(seq![c] + rest),
            },
        }
    }
}

/// `[colors]`: every slot under its segment, as a lowercase literal.
pub open spec fn colour_pairs(colours: Seq<Seq<u8>>) -> Seq<(Seq<char>, Seq<char>)> {
    Seq::new(colours.len(), |n: int| (joined("colors"@, slot_segment(n as nat)), literal_spec(colours[n])))
}

/// `[ansi]`: each terminal slot pointing at the slot that supplies it.
pub open spec fn ansi_pairs(family: Family) -> Seq<(Seq<char>, Seq<char>)> {
    Seq::new(16, |i: int| (ansi_path(i as nat), reference(slot_segment(source(family, ansi_slots()[i])))))
}

/// `[role]`: each core role pointing at its slot.
pub open spec fn role_pairs() -> Seq<(Seq<char>, Seq<char>)> {
    role_slots().map_values(|r: (Seq<char>, nat)| (r.0, reference(slot_segment(r.1))))
}

/// `meta.author`, when the scheme names one.
pub open spec fn author_pairs(author: Option<Seq<char>>) -> Seq<(Seq<char>, Seq<char>)> {
    match author {
        Some(a) => seq![("meta.author"@, a)],
        None => Seq::empty(),
    }
}

/// What converting `document` as a scheme of `family` gives.
pub open spec fn base16_spec(document: YamlNode, family: Family) -> Result<ConvertedView, ConvertErrorView> {
    match required_spec(document, "name"@) {
        Err(p) => Err(ConvertErrorView::Invalid(p)),
        Ok(name) => match nested_spec(document, "palette"@) {
            Err(p) => Err(ConvertErrorView::Invalid(p)),
            Ok(palette) => match colours_from(palette, family, 0) {
                Err(e) => Err(e),
                Ok(colours) => match optional_spec(document, "author"@) {
                    Err(p) => Err(ConvertErrorView::Invalid(p)),
                    Ok(author) => match optional_spec(document, "variant"@) {
                        Err(p) => Err(ConvertErrorView::Invalid(p)),
                        Ok(written) => match variant_spec(written, colours[0]) {
                            Err(e) => Err(e),
                            Ok(v) => Ok(ConvertedView {
                                name,
                                variant: v,
                                tokens: pairs_map(
                                    colour_pairs(colours) + ansi_pairs(family) + role_pairs()
                                        + author_pairs(author),
                                ),
                            }),
                        },
                    },
                },
            },
        },
    }
}

/// The uppercase hex digit for `d`.
fn upper_digit_char(d: u8) -> (c: char)
    requires
        d < 16,
    ensures
        c == upper_digit(d as nat),
{
    match d {
        0 => '0',
        1 => '1',
        2 => '2',
        3 => '3',
        4 => '4',
        5 => '5',
        6 => '6',
        7 => '7',
        8 => '8',
        9 => '9',
        10 => 'A',
        11 => 'B',
        12 => 'C',
        13 => 'D',
        14 => 'E',
        _ => 'F',
    }
}

/// The lowercase hex digit for `d`.
fn lower_digit_char(d: u8) -> (c: char)
    requires
        d < 16,
    ensures
        c == hex_digit(d as nat),
{
    match d {
        0 => '0',
        1 => '1',
        2 => '2',
        3 => '3',
        4 => '4',
        5 => '5',
        6 => '6',
        7 => '7',
        8 => '8',
        9 => '9',
        10 => 'a',
        11 => 'b',
        12 => 'c',
        13 => 'd',
        14 => 'e',
        _ => 'f',
    }
}

/// Slot `n` as the specification spells it, or as a segment.
fn slot_text(n: u8, upper: bool) -> (text: String)
    ensures
        text@ == if upper { slot_name(n as nat) } else { slot_segment(n as nat) },
{
    let mut chars: Vec<char> = Vec::new();
    push_str(&mut chars, "base");
    if upper {
        chars.push(upper_digit_char(n / 16));
        chars.push(upper_digit_char(n % 16));
    } else {
        chars.push(lower_digit_char(n / 16));
        chars.push(lower_digit_char(n % 16));
    }
    proof {
        reveal_strlit("base");
        if upper {
            assert(chars@ =~= slot_name(n as nat));
        } else {
            assert(chars@ =~= slot_segment(n as nat));
        }
    }
    string_of(chars.as_slice())
}

/// A slot's segment is a token segment.
proof fn lemma_slot_segment(n: nat)
    requires
        n < 256,
    ensures
        is_segment_spec(slot_segment(n)),
{
    reveal_strlit("base");
    let s = slot_segment(n);
    assert(s.len() == 6);
    assert(n / 16 < 16);
    assert(crate::text::is_lower_or_digit(hex_digit(n / 16)));
    assert(crate::text::is_lower_or_digit(hex_digit(n % 16)));
    assert forall|i: int| 0 <= i < s.len() implies #[trigger] segment_char(s[i]) by {
        if i < 4 {
            assert(s[i] == "base"@[i]);
        }
    }
}

/// `colors.<segment of slot n>`.
fn colour_path(n: u8) -> (path: TokenPath)
    ensures
        path@ == joined("colors"@, slot_segment(n as nat)),
{
    proof {
        reveal_strlit("colors");
        lemma_slot_segment(n as nat);
    }
    let colors = known("colors");
    let segment = slot_text(n, false);
    match colors.child(segment.as_str()) {
        Some(path) => path,
        None => {
            proof {
                assert(false);
            }
            colors
        },
    }
}

/// `{{colors.<segment of slot n>}}`.
fn reference_text(n: u8) -> (text: String)
    ensures
        text@ == reference(slot_segment(n as nat)),
{
    let mut chars: Vec<char> = Vec::new();
    push_str(&mut chars, "{{colors.");
    let segment = slot_text(n, false);
    push_str(&mut chars, segment.as_str());
    push_str(&mut chars, "}}");
    string_of(chars.as_slice())
}

/// The colour slot `n` holds, as red, green and blue.
fn colour(palette: &YamlNode, family: Family, n: u8) -> (result: Result<[u8; 3], ConvertError>)
    ensures
        match (result, colour_spec(*palette, family, n as nat)) {
            (Ok(c), Ok(expected)) => c@ == expected,
            (Err(e), Err(expected)) => e@ == expected,
            _ => false,
        },
{
    let name = slot_text(n, true);
    let written = match optional(palette, name.as_str()) {
        Err(source) => return Err(ConvertError::Invalid { source }),
        Ok(Some(text)) => Some(text),
        Ok(None) => {
            let segment = slot_text(n, false);
            match optional(palette, segment.as_str()) {
                Err(source) => return Err(ConvertError::Invalid { source }),
                Ok(Some(text)) => Some(text),
                Ok(None) => None,
            }
        },
    };
    match written {
        Some(text) => hex(name.as_str(), text),
        None => Err(ConvertError::Slot {
            system: match family {
                Family::Base16 => System::Base16,
                Family::Base24 => System::Base24,
            },
            slot: name,
        }),
    }
}

/// Binds `path` to `value` in `tokens`, one more pair of those `pairs` collects.
fn bind(
    tokens: &mut PathMap<String>,
    Ghost(pairs): Ghost<Seq<(Seq<char>, Seq<char>)>>,
    path: TokenPath,
    value: String,
)
    requires
        old(tokens).well_formed(),
        map_of(old(tokens).view_entries()) == pairs_map(pairs),
    ensures
        final(tokens).well_formed(),
        map_of(final(tokens).view_entries()) == pairs_map(pairs.push((path@, value@))),
{
    let ghost k = path@;
    let ghost v = value@;
    proof {
        lemma_map_of_insert(tokens.view_entries(), path@, value);
        assert(pairs.push((k, v)).drop_last() =~= pairs);
    }
    tokens.insert(path, value);
}

/// The slot number the base24 ANSI column puts at terminal slot `i`.
fn ansi_slot(i: usize) -> (n: u8)
    requires
        i < 16,
    ensures
        n == ansi_slots()[i as int],
{
    match i {
        0 => 0x00,
        1 => 0x08,
        2 => 0x0B,
        3 => 0x0A,
        4 => 0x0D,
        5 => 0x0E,
        6 => 0x0C,
        7 => 0x05,
        8 => 0x03,
        9 => 0x12,
        10 => 0x14,
        11 => 0x13,
        12 => 0x16,
        13 => 0x17,
        14 => 0x15,
        _ => 0x07,
    }
}

/// The slot of `family` that supplies slot `n`.
fn source_slot(family: Family, n: u8) -> (m: u8)
    ensures
        m == source(family, n as nat),
{
    match family {
        Family::Base24 => n,
        Family::Base16 => if n == 0x10 || n == 0x11 {
            0x00
        } else if n == 0x12 {
            0x08
        } else if n == 0x13 {
            0x0A
        } else if n == 0x14 {
            0x0B
        } else if n == 0x15 {
            0x0C
        } else if n == 0x16 {
            0x0D
        } else if n == 0x17 {
            0x0E
        } else {
            n
        },
    }
}

/// Binds one core role to the slot it takes.
fn bind_role(
    tokens: &mut PathMap<String>,
    Ghost(pairs): Ghost<Seq<(Seq<char>, Seq<char>)>>,
    role: &str,
    n: u8,
)
    requires
        old(tokens).well_formed(),
        map_of(old(tokens).view_entries()) == pairs_map(pairs),
        crate::token::is_path_spec(role@),
    ensures
        final(tokens).well_formed(),
        map_of(final(tokens).view_entries()) == pairs_map(
            pairs.push((role@, reference(slot_segment(n as nat)))),
        ),
{
    let path = known(role);
    let value = reference_text(n);
    bind(tokens, Ghost(pairs), path, value);
}

/// The colours of every slot of `family`, in slot order, or the first slot's error.
fn colours(palette: &YamlNode, family: Family) -> (result: Result<Vec<[u8; 3]>, ConvertError>)
    ensures
        match (result, colours_from(*palette, family, 0)) {
            (Ok(cs), Ok(expected)) => cs@.map_values(|c: [u8; 3]| c@) == expected,
            (Err(e), Err(expected)) => e@ == expected,
            _ => false,
        },
        result matches Ok(cs) ==> cs@.len() == slot_count(family),
{
    let count: u8 = match family {
        Family::Base16 => 16,
        Family::Base24 => 24,
    };
    let mut colours: Vec<[u8; 3]> = Vec::new();
    let mut n: u8 = 0;
    while n < count
        invariant
            n <= count,
            count == slot_count(family),
            colours@.len() == n,
            colours_from(*palette, family, 0) == match colours_from(*palette, family, n as nat) {
                Ok(rest) => Ok(colours@.map_values(|c: [u8; 3]| c@) + rest),
                Err(e) => Err(e),
            },
        decreases count - n,
    {
        let c = match colour(palette, family, n) {
            Ok(c) => c,
            Err(e) => return Err(e),
        };
        let ghost before = colours@.map_values(|c: [u8; 3]| c@);
        colours.push(c);
        proof {
            assert(colours@.map_values(|c: [u8; 3]| c@) =~= before.push(c@));
            match colours_from(*palette, family, (n + 1) as nat) {
                Ok(rest) => {
                    assert(before.push(c@) + rest =~= before + (seq![c@] + rest));
                },
                Err(_) => {},
            }
        }
        n = n + 1;
    }
    proof {
        assert(colours@.map_values(|c: [u8; 3]| c@) + Seq::<Seq<u8>>::empty() =~= colours@.map_values(|c: [u8; 3]| c@));
    }
    Ok(colours)
}

/// The tokens a scheme of `family` with these colours and this author converts to.
fn base16_tokens(family: Family, colours: &Vec<[u8; 3]>, author: Option<&str>) -> (tokens: PathMap<String>)
    requires
        colours@.len() == slot_count(family),
    ensures
        tokens.well_formed(),
        map_of(tokens.view_entries()) == pairs_map(
            colour_pairs(colours@.map_values(|c: [u8; 3]| c@)) + ansi_pairs(family) + role_pairs()
                + author_pairs(
                match author {
                    Some(a) => Some(a@),
                    None => None,
                },
            ),
        ),
{
    let count: u8 = match family {
        Family::Base16 => 16,
        Family::Base24 => 24,
    };
    let ghost views = colours@.map_values(|c: [u8; 3]| c@);
    proof {
        assert(views + Seq::<Seq<u8>>::empty() =~= views);
    }
    let mut tokens: PathMap<String> = PathMap::new();
    let ghost mut pairs: Seq<(Seq<char>, Seq<char>)> = Seq::empty();
    proof {
        assert(map_of(tokens.view_entries()) =~= pairs_map(pairs));
    }
    let mut i: u8 = 0;
    while i < count
        invariant
            i <= count,
            count == slot_count(family),
            colours@.len() == count,
            views == colours@.map_values(|c: [u8; 3]| c@),
            tokens.well_formed(),
            map_of(tokens.view_entries()) == pairs_map(pairs),
            pairs == colour_pairs(views).take(i as int),
        decreases count - i,
    {
        let path = colour_path(i);
        let value = literal(colours[i as usize]);
        bind(&mut tokens, Ghost(pairs), path, value);
        proof {
            assert(colour_pairs(views).take(i + 1) =~= pairs.push(colour_pairs(views)[i as int]));
            pairs = pairs.push(colour_pairs(views)[i as int]);
        }
        i = i + 1;
    }
    proof {
        assert(colour_pairs(views).take(count as int) =~= colour_pairs(views));
    }
    let ghost base = pairs;
    let mut k: usize = 0;
    while k < 16
        invariant
            k <= 16,
            tokens.well_formed(),
            map_of(tokens.view_entries()) == pairs_map(pairs),
            pairs == base + ansi_pairs(family).take(k as int),
        decreases 16 - k,
    {
        let path = ansi(k);
        let value = reference_text(source_slot(family, ansi_slot(k)));
        bind(&mut tokens, Ghost(pairs), path, value);
        proof {
            assert(ansi_pairs(family).take(k + 1) =~= ansi_pairs(family).take(k as int).push(
                ansi_pairs(family)[k as int],
            ));
            pairs = pairs.push(ansi_pairs(family)[k as int]);
        }
        k = k + 1;
    }
    proof {
        assert(ansi_pairs(family).take(16) =~= ansi_pairs(family));
        reveal_strlit("role.bg");
        reveal_strlit("role.fg");
        reveal_strlit("role.comment");
        reveal_strlit("role.keyword");
        reveal_strlit("role.string");
        reveal_strlit("role.error");
        reveal_strlit("role.ok");
        reveal_strlit("role.warn");
        reveal_strlit("role.visual");
        reveal_strlit("role.linenr");
        reveal_strlit("role.accent");
        reveal_strlit("role.accent-alt");
        reveal_strlit("role.accent-warm");
        reveal_strlit("role.inactive");
        reveal_strlit("role.border");
        reveal_strlit("role.selection-bg");
        reveal_strlit("role.hover-bg");
    }
    let ghost before_roles = pairs;
    bind_role(&mut tokens, Ghost(pairs), "role.bg", 0x00);
    proof { pairs = pairs.push(("role.bg"@, reference(slot_segment(0x00)))); }
    bind_role(&mut tokens, Ghost(pairs), "role.fg", 0x05);
    proof { pairs = pairs.push(("role.fg"@, reference(slot_segment(0x05)))); }
    bind_role(&mut tokens, Ghost(pairs), "role.comment", 0x03);
    proof { pairs = pairs.push(("role.comment"@, reference(slot_segment(0x03)))); }
    bind_role(&mut tokens, Ghost(pairs), "role.keyword", 0x0E);
    proof { pairs = pairs.push(("role.keyword"@, reference(slot_segment(0x0E)))); }
    bind_role(&mut tokens, Ghost(pairs), "role.string", 0x0B);
    proof { pairs = pairs.push(("role.string"@, reference(slot_segment(0x0B)))); }
    bind_role(&mut tokens, Ghost(pairs), "role.error", 0x08);
    proof { pairs = pairs.push(("role.error"@, reference(slot_segment(0x08)))); }
    bind_role(&mut tokens, Ghost(pairs), "role.ok", 0x0B);
    proof { pairs = pairs.push(("role.ok"@, reference(slot_segment(0x0B)))); }
    bind_role(&mut tokens, Ghost(pairs), "role.warn", 0x0A);
    proof { pairs = pairs.push(("role.warn"@, reference(slot_segment(0x0A)))); }
    bind_role(&mut tokens, Ghost(pairs), "role.visual", 0x0D);
    proof { pairs = pairs.push(("role.visual"@, reference(slot_segment(0x0D)))); }
    bind_role(&mut tokens, Ghost(pairs), "role.linenr", 0x04);
    proof { pairs = pairs.push(("role.linenr"@, reference(slot_segment(0x04)))); }
    bind_role(&mut tokens, Ghost(pairs), "role.accent", 0x0D);
    proof { pairs = pairs.push(("role.accent"@, reference(slot_segment(0x0D)))); }
    bind_role(&mut tokens, Ghost(pairs), "role.accent-alt", 0x0C);
    proof { pairs = pairs.push(("role.accent-alt"@, reference(slot_segment(0x0C)))); }
    bind_role(&mut tokens, Ghost(pairs), "role.accent-warm", 0x09);
    proof { pairs = pairs.push(("role.accent-warm"@, reference(slot_segment(0x09)))); }
    bind_role(&mut tokens, Ghost(pairs), "role.inactive", 0x03);
    proof { pairs = pairs.push(("role.inactive"@, reference(slot_segment(0x03)))); }
    bind_role(&mut tokens, Ghost(pairs), "role.border", 0x02);
    proof { pairs = pairs.push(("role.border"@, reference(slot_segment(0x02)))); }
    bind_role(&mut tokens, Ghost(pairs), "role.selection-bg", 0x02);
    proof { pairs = pairs.push(("role.selection-bg"@, reference(slot_segment(0x02)))); }
    bind_role(&mut tokens, Ghost(pairs), "role.hover-bg", 0x01);
    proof {
        pairs = pairs.push(("role.hover-bg"@, reference(slot_segment(0x01))));
        assert(pairs =~= before_roles + role_pairs());
    }
    let ghost author_view: Option<Seq<char>> = match author {
        Some(a) => Some(a@),
        None => None,
    };
    match author {
        Some(text) => {
            proof {
                reveal_strlit("meta.author");
            }
            let path = known("meta.author");
            bind(&mut tokens, Ghost(pairs), path, text.to_owned());
            proof {
                pairs = pairs.push(("meta.author"@, text@));
            }
        },
        None => {},
    }
    proof {
        assert(pairs =~= colour_pairs(views) + ansi_pairs(family) + role_pairs() + author_pairs(author_view));
    }
    tokens
}

/// Converts `document`, a scheme of `family`, into the theme model.
///
/// `[colors]` takes the palette under the slot names, lowercased, and everything else
/// points at it.
pub fn convert_base16(document: &YamlNode, family: Family) -> (result: Result<Converted, ConvertError>)
    ensures
        crate::scheme::convert::outcome(result) == base16_spec(*document, family),
{
    proof {
        reveal_strlit("name");
        reveal_strlit("palette");
        reveal_strlit("author");
        reveal_strlit("variant");
    }
    let name = match required(document, "name") {
        Ok(name) => name.to_owned(),
        Err(source) => return Err(ConvertError::Invalid { source }),
    };
    let palette = match nested(document, "palette") {
        Ok(palette) => palette,
        Err(source) => return Err(ConvertError::Invalid { source }),
    };
    let colours = match colours(palette, family) {
        Ok(colours) => colours,
        Err(e) => return Err(e),
    };
    let author = match optional(document, "author") {
        Ok(author) => author,
        Err(source) => return Err(ConvertError::Invalid { source }),
    };
    let tokens = base16_tokens(family, &colours, author);
    let written = match optional(document, "variant") {
        Ok(written) => written,
        Err(source) => return Err(ConvertError::Invalid { source }),
    };
    let v = match variant(written, colours[0]) {
        Ok(v) => v,
        Err(e) => return Err(e),
    };
    Ok(Converted::new(name, v, tokens))
}

/// `tokens` binds `key` to `value`.
pub open spec fn binds(tokens: Map<Seq<char>, Seq<char>>, key: Seq<char>, value: Seq<char>) -> bool {
    tokens.contains_key(key) && tokens[key] == value
}

/// Of pairs bound in order, a key no later pair names keeps the value of its own pair.
proof fn lemma_last_pair(pairs: Seq<(Seq<char>, Seq<char>)>, q: int)
    requires
        0 <= q < pairs.len(),
        forall|m: int| q < m < pairs.len() ==> #[trigger] pairs[m].0 != pairs[q].0,
    ensures
        binds(pairs_map(pairs), pairs[q].0, pairs[q].1),
{
    crate::token::lemma_pairs_map_prefix(pairs, q + 1, pairs[q].0);
    assert(pairs.take(q + 1).drop_last() =~= pairs.take(q));
    assert(pairs.take(q + 1).last() == pairs[q]);
}

/// The reference to slot `n`, character by character.
proof fn lemma_reference_chars(n: nat)
    ensures
        reference(slot_segment(n)) =~= seq!['{', '{', 'c', 'o', 'l', 'o', 'r', 's', '.', 'b', 'a', 's', 'e', hex_digit(n / 16), hex_digit(n % 16), '}', '}'],
{
    reveal_strlit("{{colors.");
    reveal_strlit("}}");
    reveal_strlit("base");
}

proof fn lemma_role_keys()
    ensures
        role_slots().len() == 17,
        forall|a: int, b: int| 0 <= a < b < 17 ==> #[trigger] role_slots()[a].0 != #[trigger] role_slots()[b].0,
        forall|a: int| 0 <= a < 17 ==> (#[trigger] role_slots()[a]).0[0] == 'r',
{
    reveal_strlit("role.bg");
    reveal_strlit("role.fg");
    reveal_strlit("role.comment");
    reveal_strlit("role.keyword");
    reveal_strlit("role.string");
    reveal_strlit("role.error");
    reveal_strlit("role.ok");
    reveal_strlit("role.warn");
    reveal_strlit("role.visual");
    reveal_strlit("role.linenr");
    reveal_strlit("role.accent");
    reveal_strlit("role.accent-alt");
    reveal_strlit("role.accent-warm");
    reveal_strlit("role.inactive");
    reveal_strlit("role.border");
    reveal_strlit("role.selection-bg");
    reveal_strlit("role.hover-bg");
    assert forall|a: int, b: int| 0 <= a < b < 17 implies #[trigger] role_slots()[a].0 != #[trigger] role_slots()[b].0 by {
        if role_slots()[a].0.len() == role_slots()[b].0.len() {
            assert(role_slots()[a].0[5] != role_slots()[b].0[5]);
        }
    }
}

/// The pairs a converted scheme's tokens are bound from, in order.
pub open spec fn base16_pairs(document: YamlNode, family: Family) -> Seq<(Seq<char>, Seq<char>)> {
    colour_pairs(colours_from(nested_spec(document, "palette"@)->Ok_0, family, 0)->Ok_0) + ansi_pairs(family) + role_pairs()
        + author_pairs(optional_spec(document, "author"@)->Ok_0)
}

proof fn lemma_binds_role(document: YamlNode, family: Family, q: int)
    requires
        base16_spec(document, family) is Ok,
        0 <= q < 17,
    ensures
        binds(base16_spec(document, family)->Ok_0.tokens, role_slots()[q].0, reference(slot_segment(role_slots()[q].1))),
{
    let all = base16_pairs(document, family);
    assert(base16_spec(document, family)->Ok_0.tokens == pairs_map(all));
    lemma_role_keys();
    reveal_strlit("meta.author");
    let c = colour_pairs(colours_from(nested_spec(document, "palette"@)->Ok_0, family, 0)->Ok_0).len() as int;
    let at = c + 16 + q;
    assert(all[at] == role_pairs()[q]);
    assert forall|m: int| at < m < all.len() implies #[trigger] all[m].0 != all[at].0 by {
        if m < c + 33 {
            assert(all[m] == role_pairs()[m - c - 16]);
        } else {
            assert(all[m].0 == "meta.author"@);
        }
    }
    lemma_last_pair(all, at);
}

proof fn lemma_binds_ansi(document: YamlNode, family: Family, i: int)
    requires
        base16_spec(document, family) is Ok,
        0 <= i < 16,
    ensures
        binds(
            base16_spec(document, family)->Ok_0.tokens,
            ansi_path(i as nat),
            reference(slot_segment(source(family, ansi_slots()[i]))),
        ),
{
    let all = base16_pairs(document, family);
    assert(base16_spec(document, family)->Ok_0.tokens == pairs_map(all));
    lemma_role_keys();
    reveal_strlit("meta.author");
    reveal_strlit("ansi.");
    let c = colour_pairs(colours_from(nested_spec(document, "palette"@)->Ok_0, family, 0)->Ok_0).len() as int;
    let at = c + i;
    assert(all[at] == ansi_pairs(family)[i]);
    assert(ansi_path(i as nat)[0] == 'a');
    assert forall|m: int| at < m < all.len() implies #[trigger] all[m].0 != all[at].0 by {
        if m < c + 16 {
            let j = m - c;
            assert(all[m] == ansi_pairs(family)[j]);
            if ansi_path(j as nat) == ansi_path(i as nat) {
                assert(ansi_path(j as nat).skip(5) == crate::text::decimal(j as nat));
                assert(ansi_path(i as nat).skip(5) == crate::text::decimal(i as nat));
                crate::text::lemma_decimal_injective(j as nat, i as nat);
            }
        } else if m < c + 33 {
            assert(all[m] == role_pairs()[m - c - 16]);
        } else {
            assert(all[m].0 == "meta.author"@);
        }
    }
    lemma_last_pair(all, at);
}

/// A converted base16 or base24 scheme follows the base16 styling table: each core role refers
/// to the slot the table gives it (the foreground to `base05`, line numbers to `base04`, and
/// so on), and the sixteen terminal slots to the ANSI column, a base16 scheme taking the
/// base24 bright slots from the base16 slots they fall back to.
pub proof fn lemma_base16_styling(document: YamlNode, family: Family)
    requires
        base16_spec(document, family) is Ok,
    ensures
        binds(base16_spec(document, family)->Ok_0.tokens, "role.bg"@, "{{colors.base00}}"@),
        binds(base16_spec(document, family)->Ok_0.tokens, "role.fg"@, "{{colors.base05}}"@),
        binds(base16_spec(document, family)->Ok_0.tokens, "role.comment"@, "{{colors.base03}}"@),
        binds(base16_spec(document, family)->Ok_0.tokens, "role.keyword"@, "{{colors.base0e}}"@),
        binds(base16_spec(document, family)->Ok_0.tokens, "role.string"@, "{{colors.base0b}}"@),
        binds(base16_spec(document, family)->Ok_0.tokens, "role.error"@, "{{colors.base08}}"@),
        binds(base16_spec(document, family)->Ok_0.tokens, "role.ok"@, "{{colors.base0b}}"@),
        binds(base16_spec(document, family)->Ok_0.tokens, "role.warn"@, "{{colors.base0a}}"@),
        binds(base16_spec(document, family)->Ok_0.tokens, "role.visual"@, "{{colors.base0d}}"@),
        binds(base16_spec(document, family)->Ok_0.tokens, "role.linenr"@, "{{colors.base04}}"@),
        binds(base16_spec(document, family)->Ok_0.tokens, "role.accent"@, "{{colors.base0d}}"@),
        binds(base16_spec(document, family)->Ok_0.tokens, "role.accent-alt"@, "{{colors.base0c}}"@),
        binds(base16_spec(document, family)->Ok_0.tokens, "role.accent-warm"@, "{{colors.base09}}"@),
        binds(base16_spec(document, family)->Ok_0.tokens, "role.inactive"@, "{{colors.base03}}"@),
        binds(base16_spec(document, family)->Ok_0.tokens, "role.border"@, "{{colors.base02}}"@),
        binds(base16_spec(document, family)->Ok_0.tokens, "role.selection-bg"@, "{{colors.base02}}"@),
        binds(base16_spec(document, family)->Ok_0.tokens, "role.hover-bg"@, "{{colors.base01}}"@),
        family == Family::Base16 ==> {
            &&& binds(base16_spec(document, family)->Ok_0.tokens, "ansi.0"@, "{{colors.base00}}"@)
            &&& binds(base16_spec(document, family)->Ok_0.tokens, "ansi.1"@, "{{colors.base08}}"@)
            &&& binds(base16_spec(document, family)->Ok_0.tokens, "ansi.2"@, "{{colors.base0b}}"@)
            &&& binds(base16_spec(document, family)->Ok_0.tokens, "ansi.3"@, "{{colors.base0a}}"@)
            &&& binds(base16_spec(document, family)->Ok_0.tokens, "ansi.4"@, "{{colors.base0d}}"@)
            &&& binds(base16_spec(document, family)->Ok_0.tokens, "ansi.5"@, "{{colors.base0e}}"@)
            &&& binds(base16_spec(document, family)->Ok_0.tokens, "ansi.6"@, "{{colors.base0c}}"@)
            &&& binds(base16_spec(document, family)->Ok_0.tokens, "ansi.7"@, "{{colors.base05}}"@)
            &&& binds(base16_spec(document, family)->Ok_0.tokens, "ansi.8"@, "{{colors.base03}}"@)
            &&& binds(base16_spec(document, family)->Ok_0.tokens, "ansi.9"@, "{{colors.base08}}"@)
            &&& binds(base16_spec(document, family)->Ok_0.tokens, "ansi.10"@, "{{colors.base0b}}"@)
            &&& binds(base16_spec(document, family)->Ok_0.tokens, "ansi.11"@, "{{colors.base0a}}"@)
            &&& binds(base16_spec(document, family)->Ok_0.tokens, "ansi.12"@, "{{colors.base0d}}"@)
            &&& binds(base16_spec(document, family)->Ok_0.tokens, "ansi.13"@, "{{colors.base0e}}"@)
            &&& binds(base16_spec(document, family)->Ok_0.tokens, "ansi.14"@, "{{colors.base0c}}"@)
            &&& binds(base16_spec(document, family)->Ok_0.tokens, "ansi.15"@, "{{colors.base07}}"@)
        },
        family == Family::Base24 ==> {
            &&& binds(base16_spec(document, family)->Ok_0.tokens, "ansi.0"@, "{{colors.base00}}"@)
            &&& binds(base16_spec(document, family)->Ok_0.tokens, "ansi.1"@, "{{colors.base08}}"@)
            &&& binds(base16_spec(document, family)->Ok_0.tokens, "ansi.2"@, "{{colors.base0b}}"@)
            &&& binds(base16_spec(document, family)->Ok_0.tokens, "ansi.3"@, "{{colors.base0a}}"@)
            &&& binds(base16_spec(document, family)->Ok_0.tokens, "ansi.4"@, "{{colors.base0d}}"@)
            &&& binds(base16_spec(document, family)->Ok_0.tokens, "ansi.5"@, "{{colors.base0e}}"@)
            &&& binds(base16_spec(document, family)->Ok_0.tokens, "ansi.6"@, "{{colors.base0c}}"@)
            &&& binds(base16_spec(document, family)->Ok_0.tokens, "ansi.7"@, "{{colors.base05}}"@)
            &&& binds(base16_spec(document, family)->Ok_0.tokens, "ansi.8"@, "{{colors.base03}}"@)
            &&& binds(base16_spec(document, family)->Ok_0.tokens, "ansi.9"@, "{{colors.base12}}"@)
            &&& binds(base16_spec(document, family)->Ok_0.tokens, "ansi.10"@, "{{colors.base14}}"@)
            &&& binds(base16_spec(document, family)->Ok_0.tokens, "ansi.11"@, "{{colors.base13}}"@)
            &&& binds(base16_spec(document, family)->Ok_0.tokens, "ansi.12"@, "{{colors.base16}}"@)
            &&& binds(base16_spec(document, family)->Ok_0.tokens, "ansi.13"@, "{{colors.base17}}"@)
            &&& binds(base16_spec(document, family)->Ok_0.tokens, "ansi.14"@, "{{colors.base15}}"@)
            &&& binds(base16_spec(document, family)->Ok_0.tokens, "ansi.15"@, "{{colors.base07}}"@)
        },
{
    reveal_with_fuel(crate::text::decimal, 3);
    assert(binds(base16_spec(document, family)->Ok_0.tokens, "role.bg"@, "{{colors.base00}}"@)) by {
        reveal_strlit("role.bg");
        reveal_strlit("{{colors.base00}}");
        assert(hex_digit(0nat) == '0');
        lemma_binds_role(document, family, 0);
        lemma_reference_chars(0);
        assert(reference(slot_segment(0nat)) =~= "{{colors.base00}}"@);
        assert(role_slots()[0] == ("role.bg"@, 0nat));
    }
    assert(binds(base16_spec(document, family)->Ok_0.tokens, "role.fg"@, "{{colors.base05}}"@)) by {
        reveal_strlit("role.fg");
        reveal_strlit("{{colors.base05}}");
        assert(hex_digit(0nat) == '0');
        assert(hex_digit(5nat) == '5');
        lemma_binds_role(document, family, 1);
        lemma_reference_chars(5);
        assert(reference(slot_segment(5nat)) =~= "{{colors.base05}}"@);
        assert(role_slots()[1] == ("role.fg"@, 5nat));
    }
    assert(binds(base16_spec(document, family)->Ok_0.tokens, "role.comment"@, "{{colors.base03}}"@)) by {
        reveal_strlit("role.comment");
        reveal_strlit("{{colors.base03}}");
        assert(hex_digit(0nat) == '0');
        assert(hex_digit(3nat) == '3');
        lemma_binds_role(document, family, 2);
        lemma_reference_chars(3);
        assert(reference(slot_segment(3nat)) =~= "{{colors.base03}}"@);
        assert(role_slots()[2] == ("role.comment"@, 3nat));
    }
    assert(binds(base16_spec(document, family)->Ok_0.tokens, "role.keyword"@, "{{colors.base0e}}"@)) by {
        reveal_strlit("role.keyword");
        reveal_strlit("{{colors.base0e}}");
        assert(hex_digit(0nat) == '0');
        assert(hex_digit(14nat) == 'e');
        lemma_binds_role(document, family, 3);
        lemma_reference_chars(14);
        assert(reference(slot_segment(14nat)) =~= "{{colors.base0e}}"@);
        assert(role_slots()[3] == ("role.keyword"@, 14nat));
    }
    assert(binds(base16_spec(document, family)->Ok_0.tokens, "role.string"@, "{{colors.base0b}}"@)) by {
        reveal_strlit("role.string");
        reveal_strlit("{{colors.base0b}}");
        assert(hex_digit(0nat) == '0');
        assert(hex_digit(11nat) == 'b');
        lemma_binds_role(document, family, 4);
        lemma_reference_chars(11);
        assert(reference(slot_segment(11nat)) =~= "{{colors.base0b}}"@);
        assert(role_slots()[4] == ("role.string"@, 11nat));
    }
    assert(binds(base16_spec(document, family)->Ok_0.tokens, "role.error"@, "{{colors.base08}}"@)) by {
        reveal_strlit("role.error");
        reveal_strlit("{{colors.base08}}");
        assert(hex_digit(0nat) == '0');
        assert(hex_digit(8nat) == '8');
        lemma_binds_role(document, family, 5);
        lemma_reference_chars(8);
        assert(reference(slot_segment(8nat)) =~= "{{colors.base08}}"@);
        assert(role_slots()[5] == ("role.error"@, 8nat));
    }
    assert(binds(base16_spec(document, family)->Ok_0.tokens, "role.ok"@, "{{colors.base0b}}"@)) by {
        reveal_strlit("role.ok");
        reveal_strlit("{{colors.base0b}}");
        assert(hex_digit(0nat) == '0');
        assert(hex_digit(11nat) == 'b');
        lemma_binds_role(document, family, 6);
        lemma_reference_chars(11);
        assert(reference(slot_segment(11nat)) =~= "{{colors.base0b}}"@);
        assert(role_slots()[6] == ("role.ok"@, 11nat));
    }
    assert(binds(base16_spec(document, family)->Ok_0.tokens, "role.warn"@, "{{colors.base0a}}"@)) by {
        reveal_strlit("role.warn");
        reveal_strlit("{{colors.base0a}}");
        assert(hex_digit(0nat) == '0');
        assert(hex_digit(10nat) == 'a');
        lemma_binds_role(document, family, 7);
        lemma_reference_chars(10);
        assert(reference(slot_segment(10nat)) =~= "{{colors.base0a}}"@);
        assert(role_slots()[7] == ("role.warn"@, 10nat));
    }
    assert(binds(base16_spec(document, family)->Ok_0.tokens, "role.visual"@, "{{colors.base0d}}"@)) by {
        reveal_strlit("role.visual");
        reveal_strlit("{{colors.base0d}}");
        assert(hex_digit(0nat) == '0');
        assert(hex_digit(13nat) == 'd');
        lemma_binds_role(document, family, 8);
        lemma_reference_chars(13);
        assert(reference(slot_segment(13nat)) =~= "{{colors.base0d}}"@);
        assert(role_slots()[8] == ("role.visual"@, 13nat));
    }
    assert(binds(base16_spec(document, family)->Ok_0.tokens, "role.linenr"@, "{{colors.base04}}"@)) by {
        reveal_strlit("role.linenr");
        reveal_strlit("{{colors.base04}}");
        assert(hex_digit(0nat) == '0');
        assert(hex_digit(4nat) == '4');
        lemma_binds_role(document, family, 9);
        lemma_reference_chars(4);
        assert(reference(slot_segment(4nat)) =~= "{{colors.base04}}"@);
        assert(role_slots()[9] == ("role.linenr"@, 4nat));
    }
    assert(binds(base16_spec(document, family)->Ok_0.tokens, "role.accent"@, "{{colors.base0d}}"@)) by {
        reveal_strlit("role.accent");
        reveal_strlit("{{colors.base0d}}");
        assert(hex_digit(0nat) == '0');
        assert(hex_digit(13nat) == 'd');
        lemma_binds_role(document, family, 10);
        lemma_reference_chars(13);
        assert(reference(slot_segment(13nat)) =~= "{{colors.base0d}}"@);
        assert(role_slots()[10] == ("role.accent"@, 13nat));
    }
    assert(binds(base16_spec(document, family)->Ok_0.tokens, "role.accent-alt"@, "{{colors.base0c}}"@)) by {
        reveal_strlit("role.accent-alt");
        reveal_strlit("{{colors.base0c}}");
        assert(hex_digit(0nat) == '0');
        assert(hex_digit(12nat) == 'c');
        lemma_binds_role(document, family, 11);
        lemma_reference_chars(12);
        assert(reference(slot_segment(12nat)) =~= "{{colors.base0c}}"@);
        assert(role_slots()[11] == ("role.accent-alt"@, 12nat));
    }
    assert(binds(base16_spec(document, family)->Ok_0.tokens, "role.accent-warm"@, "{{colors.base09}}"@)) by {
        reveal_strlit("role.accent-warm");
        reveal_strlit("{{colors.base09}}");
        assert(hex_digit(0nat) == '0');
        assert(hex_digit(9nat) == '9');
        lemma_binds_role(document, family, 12);
        lemma_reference_chars(9);
        assert(reference(slot_segment(9nat)) =~= "{{colors.base09}}"@);
        assert(role_slots()[12] == ("role.accent-warm"@, 9nat));
    }
    assert(binds(base16_spec(document, family)->Ok_0.tokens, "role.inactive"@, "{{colors.base03}}"@)) by {
        reveal_strlit("role.inactive");
        reveal_strlit("{{colors.base03}}");
        assert(hex_digit(0nat) == '0');
        assert(hex_digit(3nat) == '3');
        lemma_binds_role(document, family, 13);
        lemma_reference_chars(3);
        assert(reference(slot_segment(3nat)) =~= "{{colors.base03}}"@);
        assert(role_slots()[13] == ("role.inactive"@, 3nat));
    }
    assert(binds(base16_spec(document, family)->Ok_0.tokens, "role.border"@, "{{colors.base02}}"@)) by {
        reveal_strlit("role.border");
        reveal_strlit("{{colors.base02}}");
        assert(hex_digit(0nat) == '0');
        assert(hex_digit(2nat) == '2');
        lemma_binds_role(document, family, 14);
        lemma_reference_chars(2);
        assert(reference(slot_segment(2nat)) =~= "{{colors.base02}}"@);
        assert(role_slots()[14] == ("role.border"@, 2nat));
    }
    assert(binds(base16_spec(document, family)->Ok_0.tokens, "role.selection-bg"@, "{{colors.base02}}"@)) by {
        reveal_strlit("role.selection-bg");
        reveal_strlit("{{colors.base02}}");
        assert(hex_digit(0nat) == '0');
        assert(hex_digit(2nat) == '2');
        lemma_binds_role(document, family, 15);
        lemma_reference_chars(2);
        assert(reference(slot_segment(2nat)) =~= "{{colors.base02}}"@);
        assert(role_slots()[15] == ("role.selection-bg"@, 2nat));
    }
    assert(binds(base16_spec(document, family)->Ok_0.tokens, "role.hover-bg"@, "{{colors.base01}}"@)) by {
        reveal_strlit("role.hover-bg");
        reveal_strlit("{{colors.base01}}");
        assert(hex_digit(0nat) == '0');
        assert(hex_digit(1nat) == '1');
        lemma_binds_role(document, family, 16);
        lemma_reference_chars(1);
        assert(reference(slot_segment(1nat)) =~= "{{colors.base01}}"@);
        assert(role_slots()[16] == ("role.hover-bg"@, 1nat));
    }
    if family == Family::Base16 {
        assert(binds(base16_spec(document, family)->Ok_0.tokens, "ansi.0"@, "{{colors.base00}}"@)) by {
            reveal_strlit("ansi.0");
            reveal_strlit("ansi.");
            reveal_strlit("{{colors.base00}}");
            assert(hex_digit(0nat) == '0');
            lemma_binds_ansi(document, family, 0);
            assert(ansi_path(0nat) =~= "ansi.0"@);
            lemma_reference_chars(0);
            assert(reference(slot_segment(0nat)) =~= "{{colors.base00}}"@);
            assert(source(family, ansi_slots()[0]) == 0nat);
        }
        assert(binds(base16_spec(document, family)->Ok_0.tokens, "ansi.1"@, "{{colors.base08}}"@)) by {
            reveal_strlit("ansi.1");
            reveal_strlit("ansi.");
            reveal_strlit("{{colors.base08}}");
            assert(hex_digit(0nat) == '0');
        assert(hex_digit(8nat) == '8');
            lemma_binds_ansi(document, family, 1);
            assert(ansi_path(1nat) =~= "ansi.1"@);
            lemma_reference_chars(8);
            assert(reference(slot_segment(8nat)) =~= "{{colors.base08}}"@);
            assert(source(family, ansi_slots()[1]) == 8nat);
        }
        assert(binds(base16_spec(document, family)->Ok_0.tokens, "ansi.2"@, "{{colors.base0b}}"@)) by {
            reveal_strlit("ansi.2");
            reveal_strlit("ansi.");
            reveal_strlit("{{colors.base0b}}");
            assert(hex_digit(0nat) == '0');
        assert(hex_digit(11nat) == 'b');
            lemma_binds_ansi(document, family, 2);
            assert(ansi_path(2nat) =~= "ansi.2"@);
            lemma_reference_chars(11);
            assert(reference(slot_segment(11nat)) =~= "{{colors.base0b}}"@);
            assert(source(family, ansi_slots()[2]) == 11nat);
        }
        assert(binds(base16_spec(document, family)->Ok_0.tokens, "ansi.3"@, "{{colors.base0a}}"@)) by {
            reveal_strlit("ansi.3");
            reveal_strlit("ansi.");
            reveal_strlit("{{colors.base0a}}");
            assert(hex_digit(0nat) == '0');
        assert(hex_digit(10nat) == 'a');
            lemma_binds_ansi(document, family, 3);
            assert(ansi_path(3nat) =~= "ansi.3"@);
            lemma_reference_chars(10);
            assert(reference(slot_segment(10nat)) =~= "{{colors.base0a}}"@);
            assert(source(family, ansi_slots()[3]) == 10nat);
        }
        assert(binds(base16_spec(document, family)->Ok_0.tokens, "ansi.4"@, "{{colors.base0d}}"@)) by {
            reveal_strlit("ansi.4");
            reveal_strlit("ansi.");
            reveal_strlit("{{colors.base0d}}");
            assert(hex_digit(0nat) == '0');
        assert(hex_digit(13nat) == 'd');
            lemma_binds_ansi(document, family, 4);
            assert(ansi_path(4nat) =~= "ansi.4"@);
            lemma_reference_chars(13);
            assert(reference(slot_segment(13nat)) =~= "{{colors.base0d}}"@);
            assert(source(family, ansi_slots()[4]) == 13nat);
        }
        assert(binds(base16_spec(document, family)->Ok_0.tokens, "ansi.5"@, "{{colors.base0e}}"@)) by {
            reveal_strlit("ansi.5");
            reveal_strlit("ansi.");
            reveal_strlit("{{colors.base0e}}");
            assert(hex_digit(0nat) == '0');
        assert(hex_digit(14nat) == 'e');
            lemma_binds_ansi(document, family, 5);
            assert(ansi_path(5nat) =~= "ansi.5"@);
            lemma_reference_chars(14);
            assert(reference(slot_segment(14nat)) =~= "{{colors.base0e}}"@);
            assert(source(family, ansi_slots()[5]) == 14nat);
        }
        assert(binds(base16_spec(document, family)->Ok_0.tokens, "ansi.6"@, "{{colors.base0c}}"@)) by {
            reveal_strlit("ansi.6");
            reveal_strlit("ansi.");
            reveal_strlit("{{colors.base0c}}");
            assert(hex_digit(0nat) == '0');
        assert(hex_digit(12nat) == 'c');
            lemma_binds_ansi(document, family, 6);
            assert(ansi_path(6nat) =~= "ansi.6"@);
            lemma_reference_chars(12);
            assert(reference(slot_segment(12nat)) =~= "{{colors.base0c}}"@);
            assert(source(family, ansi_slots()[6]) == 12nat);
        }
        assert(binds(base16_spec(document, family)->Ok_0.tokens, "ansi.7"@, "{{colors.base05}}"@)) by {
            reveal_strlit("ansi.7");
            reveal_strlit("ansi.");
            reveal_strlit("{{colors.base05}}");
            assert(hex_digit(0nat) == '0');
        assert(hex_digit(5nat) == '5');
            lemma_binds_ansi(document, family, 7);
            assert(ansi_path(7nat) =~= "ansi.7"@);
            lemma_reference_chars(5);
            assert(reference(slot_segment(5nat)) =~= "{{colors.base05}}"@);
            assert(source(family, ansi_slots()[7]) == 5nat);
        }
        assert(binds(base16_spec(document, family)->Ok_0.tokens, "ansi.8"@, "{{colors.base03}}"@)) by {
            reveal_strlit("ansi.8");
            reveal_strlit("ansi.");
            reveal_strlit("{{colors.base03}}");
            assert(hex_digit(0nat) == '0');
        assert(hex_digit(3nat) == '3');
            lemma_binds_ansi(document, family, 8);
            assert(ansi_path(8nat) =~= "ansi.8"@);
            lemma_reference_chars(3);
            assert(reference(slot_segment(3nat)) =~= "{{colors.base03}}"@);
            assert(source(family, ansi_slots()[8]) == 3nat);
        }
        assert(binds(base16_spec(document, family)->Ok_0.tokens, "ansi.9"@, "{{colors.base08}}"@)) by {
            reveal_strlit("ansi.9");
            reveal_strlit("ansi.");
            reveal_strlit("{{colors.base08}}");
            assert(hex_digit(0nat) == '0');
        assert(hex_digit(8nat) == '8');
            lemma_binds_ansi(document, family, 9);
            assert(ansi_path(9nat) =~= "ansi.9"@);
            lemma_reference_chars(8);
            assert(reference(slot_segment(8nat)) =~= "{{colors.base08}}"@);
            assert(source(family, ansi_slots()[9]) == 8nat);
        }
        assert(binds(base16_spec(document, family)->Ok_0.tokens, "ansi.10"@, "{{colors.base0b}}"@)) by {
            reveal_strlit("ansi.10");
            reveal_strlit("ansi.");
            reveal_strlit("{{colors.base0b}}");
            assert(hex_digit(0nat) == '0');
        assert(hex_digit(11nat) == 'b');
            lemma_binds_ansi(document, family, 10);
            assert(ansi_path(10nat) =~= "ansi.10"@);
            lemma_reference_chars(11);
            assert(reference(slot_segment(11nat)) =~= "{{colors.base0b}}"@);
            assert(source(family, ansi_slots()[10]) == 11nat);
        }
        assert(binds(base16_spec(document, family)->Ok_0.tokens, "ansi.11"@, "{{colors.base0a}}"@)) by {
            reveal_strlit("ansi.11");
            reveal_strlit("ansi.");
            reveal_strlit("{{colors.base0a}}");
            assert(hex_digit(0nat) == '0');
        assert(hex_digit(10nat) == 'a');
            lemma_binds_ansi(document, family, 11);
            assert(ansi_path(11nat) =~= "ansi.11"@);
            lemma_reference_chars(10);
            assert(reference(slot_segment(10nat)) =~= "{{colors.base0a}}"@);
            assert(source(family, ansi_slots()[11]) == 10nat);
        }
        assert(binds(base16_spec(document, family)->Ok_0.tokens, "ansi.12"@, "{{colors.base0d}}"@)) by {
            reveal_strlit("ansi.12");
            reveal_strlit("ansi.");
            reveal_strlit("{{colors.base0d}}");
            assert(hex_digit(0nat) == '0');
        assert(hex_digit(13nat) == 'd');
            lemma_binds_ansi(document, family, 12);
            assert(ansi_path(12nat) =~= "ansi.12"@);
            lemma_reference_chars(13);
            assert(reference(slot_segment(13nat)) =~= "{{colors.base0d}}"@);
            assert(source(family, ansi_slots()[12]) == 13nat);
        }
        assert(binds(base16_spec(document, family)->Ok_0.tokens, "ansi.13"@, "{{colors.base0e}}"@)) by {
            reveal_strlit("ansi.13");
            reveal_strlit("ansi.");
            reveal_strlit("{{colors.base0e}}");
            assert(hex_digit(0nat) == '0');
        assert(hex_digit(14nat) == 'e');
            lemma_binds_ansi(document, family, 13);
            assert(ansi_path(13nat) =~= "ansi.13"@);
            lemma_reference_chars(14);
            assert(reference(slot_segment(14nat)) =~= "{{colors.base0e}}"@);
            assert(source(family, ansi_slots()[13]) == 14nat);
        }
        assert(binds(base16_spec(document, family)->Ok_0.tokens, "ansi.14"@, "{{colors.base0c}}"@)) by {
            reveal_strlit("ansi.14");
            reveal_strlit("ansi.");
            reveal_strlit("{{colors.base0c}}");
            assert(hex_digit(0nat) == '0');
        assert(hex_digit(12nat) == 'c');
            lemma_binds_ansi(document, family, 14);
            assert(ansi_path(14nat) =~= "ansi.14"@);
            lemma_reference_chars(12);
            assert(reference(slot_segment(12nat)) =~= "{{colors.base0c}}"@);
            assert(source(family, ansi_slots()[14]) == 12nat);
        }
        assert(binds(base16_spec(document, family)->Ok_0.tokens, "ansi.15"@, "{{colors.base07}}"@)) by {
            reveal_strlit("ansi.15");
            reveal_strlit("ansi.");
            reveal_strlit("{{colors.base07}}");
            assert(hex_digit(0nat) == '0');
        assert(hex_digit(7nat) == '7');
            lemma_binds_ansi(document, family, 15);
            assert(ansi_path(15nat) =~= "ansi.15"@);
            lemma_reference_chars(7);
            assert(reference(slot_segment(7nat)) =~= "{{colors.base07}}"@);
            assert(source(family, ansi_slots()[15]) == 7nat);
        }
    }
    if family == Family::Base24 {
        assert(binds(base16_spec(document, family)->Ok_0.tokens, "ansi.0"@, "{{colors.base00}}"@)) by {
            reveal_strlit("ansi.0");
            reveal_strlit("ansi.");
            reveal_strlit("{{colors.base00}}");
            assert(hex_digit(0nat) == '0');
            lemma_binds_ansi(document, family, 0);
            assert(ansi_path(0nat) =~= "ansi.0"@);
            lemma_reference_chars(0);
            assert(reference(slot_segment(0nat)) =~= "{{colors.base00}}"@);
            assert(source(family, ansi_slots()[0]) == 0nat);
        }
        assert(binds(base16_spec(document, family)->Ok_0.tokens, "ansi.1"@, "{{colors.base08}}"@)) by {
            reveal_strlit("ansi.1");
            reveal_strlit("ansi.");
            reveal_strlit("{{colors.base08}}");
            assert(hex_digit(0nat) == '0');
        assert(hex_digit(8nat) == '8');
            lemma_binds_ansi(document, family, 1);
            assert(ansi_path(1nat) =~= "ansi.1"@);
            lemma_reference_chars(8);
            assert(reference(slot_segment(8nat)) =~= "{{colors.base08}}"@);
            assert(source(family, ansi_slots()[1]) == 8nat);
        }
        assert(binds(base16_spec(document, family)->Ok_0.tokens, "ansi.2"@, "{{colors.base0b}}"@)) by {
            reveal_strlit("ansi.2");
            reveal_strlit("ansi.");
            reveal_strlit("{{colors.base0b}}");
            assert(hex_digit(0nat) == '0');
        assert(hex_digit(11nat) == 'b');
            lemma_binds_ansi(document, family, 2);
            assert(ansi_path(2nat) =~= "ansi.2"@);
            lemma_reference_chars(11);
            assert(reference(slot_segment(11nat)) =~= "{{colors.base0b}}"@);
            assert(source(family, ansi_slots()[2]) == 11nat);
        }
        assert(binds(base16_spec(document, family)->Ok_0.tokens, "ansi.3"@, "{{colors.base0a}}"@)) by {
            reveal_strlit("ansi.3");
            reveal_strlit("ansi.");
            reveal_strlit("{{colors.base0a}}");
            assert(hex_digit(0nat) == '0');
        assert(hex_digit(10nat) == 'a');
            lemma_binds_ansi(document, family, 3);
            assert(ansi_path(3nat) =~= "ansi.3"@);
            lemma_reference_chars(10);
            assert(reference(slot_segment(10nat)) =~= "{{colors.base0a}}"@);
            assert(source(family, ansi_slots()[3]) == 10nat);
        }
        assert(binds(base16_spec(document, family)->Ok_0.tokens, "ansi.4"@, "{{colors.base0d}}"@)) by {
            reveal_strlit("ansi.4");
            reveal_strlit("ansi.");
            reveal_strlit("{{colors.base0d}}");
            assert(hex_digit(0nat) == '0');
        assert(hex_digit(13nat) == 'd');
            lemma_binds_ansi(document, family, 4);
            assert(ansi_path(4nat) =~= "ansi.4"@);
            lemma_reference_chars(13);
            assert(reference(slot_segment(13nat)) =~= "{{colors.base0d}}"@);
            assert(source(family, ansi_slots()[4]) == 13nat);
        }
        assert(binds(base16_spec(document, family)->Ok_0.tokens, "ansi.5"@, "{{colors.base0e}}"@)) by {
            reveal_strlit("ansi.5");
            reveal_strlit("ansi.");
            reveal_strlit("{{colors.base0e}}");
            assert(hex_digit(0nat) == '0');
        assert(hex_digit(14nat) == 'e');
            lemma_binds_ansi(document, family, 5);
            assert(ansi_path(5nat) =~= "ansi.5"@);
            lemma_reference_chars(14);
            assert(reference(slot_segment(14nat)) =~= "{{colors.base0e}}"@);
            assert(source(family, ansi_slots()[5]) == 14nat);
        }
        assert(binds(base16_spec(document, family)->Ok_0.tokens, "ansi.6"@, "{{colors.base0c}}"@)) by {
            reveal_strlit("ansi.6");
            reveal_strlit("ansi.");
            reveal_strlit("{{colors.base0c}}");
            assert(hex_digit(0nat) == '0');
        assert(hex_digit(12nat) == 'c');
            lemma_binds_ansi(document, family, 6);
            assert(ansi_path(6nat) =~= "ansi.6"@);
            lemma_reference_chars(12);
            assert(reference(slot_segment(12nat)) =~= "{{colors.base0c}}"@);
            assert(source(family, ansi_slots()[6]) == 12nat);
        }
        assert(binds(base16_spec(document, family)->Ok_0.tokens, "ansi.7"@, "{{colors.base05}}"@)) by {
            reveal_strlit("ansi.7");
            reveal_strlit("ansi.");
            reveal_strlit("{{colors.base05}}");
            assert(hex_digit(0nat) == '0');
        assert(hex_digit(5nat) == '5');
            lemma_binds_ansi(document, family, 7);
            assert(ansi_path(7nat) =~= "ansi.7"@);
            lemma_reference_chars(5);
            assert(reference(slot_segment(5nat)) =~= "{{colors.base05}}"@);
            assert(source(family, ansi_slots()[7]) == 5nat);
        }
        assert(binds(base16_spec(document, family)->Ok_0.tokens, "ansi.8"@, "{{colors.base03}}"@)) by {
            reveal_strlit("ansi.8");
            reveal_strlit("ansi.");
            reveal_strlit("{{colors.base03}}");
            assert(hex_digit(0nat) == '0');
        assert(hex_digit(3nat) == '3');
            lemma_binds_ansi(document, family, 8);
            assert(ansi_path(8nat) =~= "ansi.8"@);
            lemma_reference_chars(3);
            assert(reference(slot_segment(3nat)) =~= "{{colors.base03}}"@);
            assert(source(family, ansi_slots()[8]) == 3nat);
        }
        assert(binds(base16_spec(document, family)->Ok_0.tokens, "ansi.9"@, "{{colors.base12}}"@)) by {
            reveal_strlit("ansi.9");
            reveal_strlit("ansi.");
            reveal_strlit("{{colors.base12}}");
            assert(hex_digit(1nat) == '1');
        assert(hex_digit(2nat) == '2');
            lemma_binds_ansi(document, family, 9);
            assert(ansi_path(9nat) =~= "ansi.9"@);
            lemma_reference_chars(18);
            assert(reference(slot_segment(18nat)) =~= "{{colors.base12}}"@);
            assert(source(family, ansi_slots()[9]) == 18nat);
        }
        assert(binds(base16_spec(document, family)->Ok_0.tokens, "ansi.10"@, "{{colors.base14}}"@)) by {
            reveal_strlit("ansi.10");
            reveal_strlit("ansi.");
            reveal_strlit("{{colors.base14}}");
            assert(hex_digit(1nat) == '1');
        assert(hex_digit(4nat) == '4');
            lemma_binds_ansi(document, family, 10);
            assert(ansi_path(10nat) =~= "ansi.10"@);
            lemma_reference_chars(20);
            assert(reference(slot_segment(20nat)) =~= "{{colors.base14}}"@);
            assert(source(family, ansi_slots()[10]) == 20nat);
        }
        assert(binds(base16_spec(document, family)->Ok_0.tokens, "ansi.11"@, "{{colors.base13}}"@)) by {
            reveal_strlit("ansi.11");
            reveal_strlit("ansi.");
            reveal_strlit("{{colors.base13}}");
            assert(hex_digit(1nat) == '1');
        assert(hex_digit(3nat) == '3');
            lemma_binds_ansi(document, family, 11);
            assert(ansi_path(11nat) =~= "ansi.11"@);
            lemma_reference_chars(19);
            assert(reference(slot_segment(19nat)) =~= "{{colors.base13}}"@);
            assert(source(family, ansi_slots()[11]) == 19nat);
        }
        assert(binds(base16_spec(document, family)->Ok_0.tokens, "ansi.12"@, "{{colors.base16}}"@)) by {
            reveal_strlit("ansi.12");
            reveal_strlit("ansi.");
            reveal_strlit("{{colors.base16}}");
            assert(hex_digit(1nat) == '1');
        assert(hex_digit(6nat) == '6');
            lemma_binds_ansi(document, family, 12);
            assert(ansi_path(12nat) =~= "ansi.12"@);
            lemma_reference_chars(22);
            assert(reference(slot_segment(22nat)) =~= "{{colors.base16}}"@);
            assert(source(family, ansi_slots()[12]) == 22nat);
        }
        assert(binds(base16_spec(document, family)->Ok_0.tokens, "ansi.13"@, "{{colors.base17}}"@)) by {
            reveal_strlit("ansi.13");
            reveal_strlit("ansi.");
            reveal_strlit("{{colors.base17}}");
            assert(hex_digit(1nat) == '1');
        assert(hex_digit(7nat) == '7');
            lemma_binds_ansi(document, family, 13);
            assert(ansi_path(13nat) =~= "ansi.13"@);
            lemma_reference_chars(23);
            assert(reference(slot_segment(23nat)) =~= "{{colors.base17}}"@);
            assert(source(family, ansi_slots()[13]) == 23nat);
        }
        assert(binds(base16_spec(document, family)->Ok_0.tokens, "ansi.14"@, "{{colors.base15}}"@)) by {
            reveal_strlit("ansi.14");
            reveal_strlit("ansi.");
            reveal_strlit("{{colors.base15}}");
            assert(hex_digit(1nat) == '1');
        assert(hex_digit(5nat) == '5');
            lemma_binds_ansi(document, family, 14);
            assert(ansi_path(14nat) =~= "ansi.14"@);
            lemma_reference_chars(21);
            assert(reference(slot_segment(21nat)) =~= "{{colors.base15}}"@);
            assert(source(family, ansi_slots()[14]) == 21nat);
        }
        assert(binds(base16_spec(document, family)->Ok_0.tokens, "ansi.15"@, "{{colors.base07}}"@)) by {
            reveal_strlit("ansi.15");
            reveal_strlit("ansi.");
            reveal_strlit("{{colors.base07}}");
            assert(hex_digit(0nat) == '0');
        assert(hex_digit(7nat) == '7');
            lemma_binds_ansi(document, family, 15);
            assert(ansi_path(15nat) =~= "ansi.15"@);
            lemma_reference_chars(7);
            assert(reference(slot_segment(7nat)) =~= "{{colors.base07}}"@);
            assert(source(family, ansi_slots()[15]) == 7nat);
        }
    }
}

/// A converted scheme that names its author records them as `meta.author`.
pub proof fn lemma_base16_author(document: YamlNode, family: Family)
    requires
        base16_spec(document, family) is Ok,
    ensures
        optional_spec(document, "author"@) matches Ok(Some(a)) ==> binds(base16_spec(document, family)->Ok_0.tokens, "meta.author"@, a),
{
    let all = base16_pairs(document, family);
    assert(base16_spec(document, family)->Ok_0.tokens == pairs_map(all));
    if let Ok(Some(a)) = optional_spec(document, "author"@) {
        assert(all[all.len() - 1] == ("meta.author"@, a));
        lemma_last_pair(all, all.len() - 1);
    }
}

} // verus!
