//! tinted8, which separates a palette of hues from the `syntax` and `ui` roles drawn on it.
//!
//! `palette` holds eight required hues plus optional `-bright` and `-dim` variants and
//! supplemental hues, written as flat keys that are already token segments; `[colors]`
//! takes them verbatim. `syntax` and `ui` hold theming properties, written as dotted keys,
//! nested mappings, or both; each becomes a token under its own path plus `default`, which
//! is why `default` is reserved. Theming properties hold the colour the scheme writes.
//!
//! The sixteen terminal slots are the eight required hues, then the `-bright` variant of
//! each, falling back to the hue itself. Each of the seventeen core roles takes the theming
//! property named for it when the scheme states it, then the first palette key of its chain
//! the scheme writes, then a required hue. The chains are written for a dark scheme; a
//! light one is read through the luminance scale mirrored by index.

use vstd::prelude::*;

use crate::path_map::PathMap;
use crate::scheme::convert::{
    hex, hex_spec, lemma_map_of_insert, literal, literal_spec, map_of, Converted, ConvertedView,
    ConvertError, ConvertErrorView,
};
use crate::scheme::yaml::{
    entries, entries_spec, find_from, get_spec, key_is, nested, nested_spec, optional, optional_spec, required,
    required_spec, writes, YamlEntry, YamlNode,
};
use crate::scheme::{Problem, ProblemView, System};
use crate::text::{chars_of, push_str, split_chars, split_on, string_of};
use crate::theme::{variant_of, Variant};
use crate::token::{is_path_spec, is_segment_chars, is_segment_spec, joined, TokenPath};
use crate::vocabulary::{ansi, ansi_path, core_paths, known, role_paths};

verus! {

/// The eight hues every tinted8 scheme carries, in terminal slot order.
pub open spec fn hues() -> Seq<Seq<char>> {
    seq!["black"@, "red"@, "green"@, "yellow"@, "blue"@, "magenta"@, "cyan"@, "white"@]
}

/// The luminance scale a light scheme is mirrored through, darkest first.
pub open spec fn scale() -> Seq<Seq<char>> {
    seq![
        "black-dim"@,
        "black"@,
        "black-bright"@,
        "gray-dim"@,
        "gray"@,
        "gray-bright"@,
        "white-dim"@,
        "white"@,
        "white-bright"@,
    ]
}

/// Where `name` first stands on the scale from `i` on.
pub open spec fn scale_index(name: Seq<char>, i: int) -> Option<int>
    decreases 9 - i,
{
    if i < 0 || i >= 9 {
        None
    } else if scale()[i] == name {
        Some(i)
    } else {
        scale_index(name, i + 1)
    }
}

/// `name` as a scheme of `variant` spells it: the scale mirrored by index in a light
/// scheme; a hue does not move.
pub open spec fn mirror_spec(name: Seq<char>, variant: Variant) -> Seq<char> {
    if variant == Variant::Dark {
        name
    } else {
        match scale_index(name, 0) {
            Some(i) => scale()[8 - i],
            None => name,
        }
    }
}

/// One row of the core mapping: the role's path, the theming property it prefers, the
/// palette keys it falls to in order, and the hue it ends at.
pub struct RoleRow {
    pub path: Seq<char>,
    pub property: Option<Seq<char>>,
    pub keys: Seq<Seq<char>>,
    pub hue: Seq<char>,
}

/// A row of the core mapping.
pub open spec fn row(path: Seq<char>, property: Option<Seq<char>>, keys: Seq<Seq<char>>, hue: Seq<char>) -> RoleRow {
    RoleRow { path, property, keys, hue }
}

/// The seventeen core roles, written for a dark scheme.
pub open spec fn role_rows() -> Seq<RoleRow> {
    seq![
        row("role.bg"@, Some("ui.global.normal.background"@), seq![], "black"@),
        row("role.fg"@, Some("ui.global.normal.foreground"@), seq![], "white"@),
        row("role.comment"@, Some("syntax.comment"@), seq!["gray-dim"@, "gray"@], "white"@),
        row("role.keyword"@, Some("syntax.keyword"@), seq![], "magenta"@),
        row("role.string"@, Some("syntax.string"@), seq![], "green"@),
        row("role.error"@, Some("ui.status.error"@), seq![], "red"@),
        row("role.ok"@, Some("ui.status.success"@), seq![], "green"@),
        row("role.warn"@, Some("ui.status.warning"@), seq![], "yellow"@),
        row("role.visual"@, Some("ui.highlight.search.foreground"@), seq![], "yellow"@),
        row("role.linenr"@, Some("ui.gutter.foreground"@), seq!["white-dim"@], "white"@),
        row("role.accent"@, Some("ui.accent.normal"@), seq![], "cyan"@),
        row("role.accent-alt"@, None, seq![], "blue"@),
        row("role.accent-warm"@, None, seq!["orange"@], "yellow"@),
        row("role.inactive"@, None, seq!["gray"@], "white"@),
        row("role.border"@, Some("ui.border.normal"@), seq!["gray-dim"@, "gray"@], "black"@),
        row(
            "role.selection-bg"@,
            Some("ui.selection.background"@),
            seq!["black-bright"@, "black-dim"@, "gray"@],
            "black"@,
        ),
        row(
            "role.hover-bg"@,
            Some("ui.highlight.line.background"@),
            seq!["gray-dim"@, "black-bright"@, "black-dim"@, "gray"@],
            "black"@,
        ),
    ]
}

/// `{{colors.<key>}}`.
pub open spec fn colors_ref(key: Seq<char>) -> Seq<char> {
    "{{colors."@ + key + "}}"@
}

/// `{{<path>}}`.
pub open spec fn path_ref(path: Seq<char>) -> Seq<char> {
    "{{"@ + path + "}}"@
}

/// `name`, then `slug`, then `family` and `style` joined by a space: the display name.
pub open spec fn name_spec(scheme: YamlNode) -> Result<Seq<char>, ConvertErrorView> {
    match optional_spec(scheme, "name"@) {
        Err(p) => Err(ConvertErrorView::Invalid(p)),
        Ok(Some(name)) => Ok(name),
        Ok(None) => match optional_spec(scheme, "slug"@) {
            Err(p) => Err(ConvertErrorView::Invalid(p)),
            Ok(Some(slug)) => Ok(slug),
            Ok(None) => match optional_spec(scheme, "family"@) {
                Err(p) => Err(ConvertErrorView::Invalid(p)),
                Ok(None) => Err(ConvertErrorView::Invalid(ProblemView::Missing("scheme.name"@))),
                Ok(Some(family)) => match optional_spec(scheme, "style"@) {
                    Err(p) => Err(ConvertErrorView::Invalid(p)),
                    Ok(Some(style)) => Ok(family + " "@ + style),
                    Ok(None) => Ok(family),
                },
            },
        },
    }
}

/// The first of the eight hues from `j` on that the palette does not write.
pub open spec fn missing_hue(palette: YamlNode, j: int) -> Option<Seq<char>>
    decreases 8 - j,
{
    if j < 0 || j >= 8 {
        None
    } else if get_spec(palette, hues()[j]) is None {
        Some(hues()[j])
    } else {
        missing_hue(palette, j + 1)
    }
}

/// `[colors]` from the palette entries `pairs[i..]`, added to `tokens`.
pub open spec fn palette_tokens(
    pairs: Seq<(Seq<char>, YamlNode)>,
    i: int,
    tokens: Map<Seq<char>, Seq<char>>,
) -> Result<Map<Seq<char>, Seq<char>>, ConvertErrorView>
    decreases pairs.len() - i,
{
    if i < 0 || i >= pairs.len() {
        Ok(tokens)
    } else {
        let key = pairs[i].0;
        let at = "palette."@ + key;
        if !is_segment_spec(key) {
            Err(ConvertErrorView::Segment(at, key))
        } else {
            match pairs[i].1 {
                YamlNode::Str(text) => match hex_spec(at, text@) {
                    Err(e) => Err(e),
                    Ok(c) => palette_tokens(pairs, i + 1, tokens.insert(joined("colors"@, key), literal_spec(c))),
                },
                _ => Err(ConvertErrorView::Invalid(ProblemView::Type(at, "a string"@))),
            }
        }
    }
}

/// The path the dotted key `key`, written in the mapping at `at`, reaches from `path`,
/// taking its parts from `i` on.
pub open spec fn descend(at: Seq<char>, key: Seq<char>, parts: Seq<Seq<char>>, i: int, path: Seq<char>) -> Result<Seq<char>, ConvertErrorView>
    decreases parts.len() - i,
{
    if i < 0 || i >= parts.len() {
        Ok(path)
    } else if !is_segment_spec(parts[i]) {
        Err(ConvertErrorView::Segment(at + "."@ + key, parts[i]))
    } else if parts[i] == "default"@ {
        Err(ConvertErrorView::Reserved(joined(path, parts[i]), "default"@))
    } else {
        descend(at, key, parts, i + 1, joined(path, parts[i]))
    }
}

/// Whether every key of a mapping is a string.
pub open spec fn string_keys(entries: Seq<YamlEntry>) -> bool {
    forall|i: int| 0 <= i < entries.len() ==> (#[trigger] entries[i]).key is Some
}

/// Reading the theming property `value` at `path` into `tokens`.
pub open spec fn props_value(value: YamlNode, path: Seq<char>, tokens: Map<Seq<char>, Seq<char>>) -> Result<Map<Seq<char>, Seq<char>>, ConvertErrorView>
    decreases value, 0int,
{
    match value {
        YamlNode::Mapping(entries) => if string_keys(entries@) {
            props_entries(entries@, 0, path, tokens)
        } else {
            Err(ConvertErrorView::Invalid(ProblemView::Type(path, "a mapping with string keys"@)))
        },
        YamlNode::Str(text) => {
            let token = joined(path, "default"@);
            if tokens.contains_key(token) {
                Err(ConvertErrorView::Duplicate(token))
            } else {
                match hex_spec(path, text@) {
                    Err(e) => Err(e),
                    Ok(c) => Ok(tokens.insert(token, literal_spec(c))),
                }
            }
        },
        YamlNode::Other => Err(ConvertErrorView::Invalid(ProblemView::Type(path, "a string"@))),
    }
}

/// Reading the entries `entries[i..]` of the mapping at `path` into `tokens`.
pub open spec fn props_entries(entries: Seq<YamlEntry>, i: int, path: Seq<char>, tokens: Map<Seq<char>, Seq<char>>) -> Result<Map<Seq<char>, Seq<char>>, ConvertErrorView>
    decreases entries, entries.len() - i,
{
    if i < 0 || i >= entries.len() {
        Ok(tokens)
    } else {
        let key = entries[i].key->0@;
        match descend(path, key, split_on(key, '.'), 0, path) {
            Err(e) => Err(e),
            Ok(reached) => match props_value(entries[i].value, reached, tokens) {
                Err(e) => Err(e),
                Ok(next) => props_entries(entries, i + 1, path, next),
            },
        }
    }
}

/// Reading the block `block` of `document`, when it writes one, into `tokens`.
pub open spec fn block_spec(document: YamlNode, block: Seq<char>, tokens: Map<Seq<char>, Seq<char>>) -> Result<Map<Seq<char>, Seq<char>>, ConvertErrorView> {
    if get_spec(document, block) is Some {
        match nested_spec(document, block) {
            Err(p) => Err(ConvertErrorView::Invalid(p)),
            Ok(node) => props_value(node, block, tokens),
        }
    } else {
        Ok(tokens)
    }
}

/// The palette key a terminal slot of the bright half takes: the `-bright` variant of hue
/// `j` when the palette writes it, the hue itself otherwise.
pub open spec fn bright_source(palette: YamlNode, j: int) -> Seq<char> {
    if get_spec(palette, hues()[j] + "-bright"@) is Some {
        hues()[j] + "-bright"@
    } else {
        hues()[j]
    }
}

/// `[ansi]`: the hues, then their bright variants.
pub open spec fn ansi_pairs(palette: YamlNode) -> Seq<(Seq<char>, Seq<char>)> {
    Seq::new(
        16,
        |i: int|
            (
                ansi_path(i as nat),
                colors_ref(
                    if i < 8 {
                        hues()[i]
                    } else {
                        bright_source(palette, i - 8)
                    },
                ),
            ),
    )
}

/// The first of `keys[j..]`, mirrored, that the palette writes.
pub open spec fn first_written(palette: YamlNode, keys: Seq<Seq<char>>, variant: Variant, j: int) -> Option<Seq<char>>
    decreases keys.len() - j,
{
    if j < 0 || j >= keys.len() {
        None
    } else if get_spec(palette, mirror_spec(keys[j], variant)) is Some {
        Some(mirror_spec(keys[j], variant))
    } else {
        first_written(palette, keys, variant, j + 1)
    }
}

/// What a role of `r` holds, given the properties the scheme stated.
pub open spec fn role_value(props: Map<Seq<char>, Seq<char>>, palette: YamlNode, variant: Variant, r: RoleRow) -> Seq<char> {
    match r.property {
        Some(p) if props.contains_key(joined(p, "default"@)) => path_ref(joined(p, "default"@)),
        _ => match first_written(palette, r.keys, variant, 0) {
            Some(k) => colors_ref(k),
            None => colors_ref(mirror_spec(r.hue, variant)),
        },
    }
}

/// `[role]`: every core role.
pub open spec fn role_pairs(props: Map<Seq<char>, Seq<char>>, palette: YamlNode, variant: Variant) -> Seq<(Seq<char>, Seq<char>)> {
    role_rows().map_values(|r: RoleRow| (r.path, role_value(props, palette, variant, r)))
}

/// `meta.author`, when the scheme names one.
pub open spec fn author_pairs(author: Option<Seq<char>>) -> Seq<(Seq<char>, Seq<char>)> {
    match author {
        Some(a) => seq![("meta.author"@, a)],
        None => Seq::empty(),
    }
}

/// `tokens` with `pairs` bound in order, later pairs winning.
pub open spec fn bind_all(tokens: Map<Seq<char>, Seq<char>>, pairs: Seq<(Seq<char>, Seq<char>)>) -> Map<Seq<char>, Seq<char>>
    decreases pairs.len(),
{
    if pairs.len() == 0 {
        tokens
    } else {
        bind_all(tokens, pairs.drop_last()).insert(pairs.last().0, pairs.last().1)
    }
}

/// What converting `document` as a tinted8 scheme gives.
pub open spec fn tinted8_spec(document: YamlNode) -> Result<ConvertedView, ConvertErrorView> {
    match nested_spec(document, "scheme"@) {
        Err(p) => Err(ConvertErrorView::Invalid(p)),
        Ok(scheme) => match name_spec(scheme) {
            Err(e) => Err(e),
            Ok(name) => match required_spec(document, "variant"@) {
                Err(p) => Err(ConvertErrorView::Invalid(p)),
                Ok(written) => match variant_of(written) {
                    None => Err(ConvertErrorView::Invalid(ProblemView::Variant(written))),
                    Some(variant) => match nested_spec(document, "palette"@) {
                        Err(p) => Err(ConvertErrorView::Invalid(p)),
                        Ok(palette) => match missing_hue(palette, 0) {
                            Some(hue) => Err(ConvertErrorView::Slot(System::Tinted8, hue)),
                            None => match entries_spec(palette, "palette"@) {
                                Err(p) => Err(ConvertErrorView::Invalid(p)),
                                Ok(pairs) => match palette_tokens(pairs, 0, Map::empty()) {
                                    Err(e) => Err(e),
                                    Ok(colours) => match block_spec(document, "syntax"@, colours) {
                                        Err(e) => Err(e),
                                        Ok(syntax) => match block_spec(document, "ui"@, syntax) {
                                            Err(e) => Err(e),
                                            Ok(props) => match optional_spec(scheme, "author"@) {
                                                Err(p) => Err(ConvertErrorView::Invalid(p)),
                                                Ok(author) => Ok(ConvertedView {
                                                    name,
                                                    variant,
                                                    tokens: bind_all(
                                                        props,
                                                        ansi_pairs(palette) + role_pairs(props, palette, variant)
                                                            + author_pairs(author),
                                                    ),
                                                }),
                                            },
                                        },
                                    },
                                },
                            },
                        },
                    },
                },
            },
        },
    }
}

/// Whether `a` and `b` are the same text.
fn same_text(a: &str, b: &str) -> (same: bool)
    ensures
        same == (a@ == b@),
{
    let a = chars_of(a);
    let b = chars_of(b);
    crate::text::same_chars(a.as_slice(), b.as_slice())
}

/// Step `i` of the luminance scale.
fn scale_step(i: usize) -> (step: &'static str)
    requires
        i < 9,
    ensures
        step@ == scale()[i as int],
{
    proof {
        reveal_strlit("black-dim");
        reveal_strlit("black");
        reveal_strlit("black-bright");
        reveal_strlit("gray-dim");
        reveal_strlit("gray");
        reveal_strlit("gray-bright");
        reveal_strlit("white-dim");
        reveal_strlit("white");
        reveal_strlit("white-bright");
    }
    match i {
        0 => "black-dim",
        1 => "black",
        2 => "black-bright",
        3 => "gray-dim",
        4 => "gray",
        5 => "gray-bright",
        6 => "white-dim",
        7 => "white",
        _ => "white-bright",
    }
}

/// `name` as a scheme of `variant` spells it.
///
/// The nine-step luminance scale mirrors by index in a light scheme, so `black-bright`
/// becomes `white-dim` and `gray` stays where it is. A hue is not on the scale and does not
/// move, and nothing moves in a dark scheme.
pub fn mirror(name: &str, variant: Variant) -> (mirrored: String)
    ensures
        mirrored@ == mirror_spec(name@, variant),
{
    if variant == Variant::Dark {
        return name.to_owned();
    }
    let mut i: usize = 0;
    while i < 9
        invariant
            i <= 9,
            variant != Variant::Dark,
            scale_index(name@, 0) == scale_index(name@, i as int),
        decreases 9 - i,
    {
        if same_text(scale_step(i), name) {
            return scale_step(8 - i).to_owned();
        }
        i = i + 1;
    }
    name.to_owned()
}

/// Hue `j`, in terminal slot order.
fn hue(j: usize) -> (name: &'static str)
    requires
        j < 8,
    ensures
        name@ == hues()[j as int],
{
    proof {
        reveal_strlit("black");
        reveal_strlit("red");
        reveal_strlit("green");
        reveal_strlit("yellow");
        reveal_strlit("blue");
        reveal_strlit("magenta");
        reveal_strlit("cyan");
        reveal_strlit("white");
    }
    match j {
        0 => "black",
        1 => "red",
        2 => "green",
        3 => "yellow",
        4 => "blue",
        5 => "magenta",
        6 => "cyan",
        _ => "white",
    }
}

/// The display name the scheme goes by.
fn name(scheme: &YamlNode) -> (result: Result<String, ConvertError>)
    ensures
        match (result, name_spec(*scheme)) {
            (Ok(n), Ok(expected)) => n@ == expected,
            (Err(e), Err(expected)) => e@ == expected,
            _ => false,
        },
{
    proof {
        reveal_strlit("name");
        reveal_strlit("slug");
        reveal_strlit("family");
        reveal_strlit("style");
        reveal_strlit("scheme.name");
        reveal_strlit(" ");
    }
    match optional(scheme, "name") {
        Err(source) => return Err(ConvertError::Invalid { source }),
        Ok(Some(name)) => return Ok(name.to_owned()),
        Ok(None) => {},
    }
    match optional(scheme, "slug") {
        Err(source) => return Err(ConvertError::Invalid { source }),
        Ok(Some(slug)) => return Ok(slug.to_owned()),
        Ok(None) => {},
    }
    let family = match optional(scheme, "family") {
        Err(source) => return Err(ConvertError::Invalid { source }),
        Ok(Some(family)) => family,
        Ok(None) => return Err(ConvertError::Invalid { source: Problem::Missing("scheme.name") }),
    };
    match optional(scheme, "style") {
        Err(source) => Err(ConvertError::Invalid { source }),
        Ok(Some(style)) => {
            let mut chars: Vec<char> = Vec::new();
            push_str(&mut chars, family);
            push_str(&mut chars, " ");
            push_str(&mut chars, style);
            Ok(string_of(chars.as_slice()))
        },
        Ok(None) => Ok(family.to_owned()),
    }
}

/// Binds `path` to `value` in `tokens`.
fn bind(tokens: &mut PathMap<String>, path: TokenPath, value: String)
    requires
        old(tokens).well_formed(),
    ensures
        final(tokens).well_formed(),
        map_of(final(tokens).view_entries()) == map_of(old(tokens).view_entries()).insert(path@, value@),
{
    proof {
        lemma_map_of_insert(tokens.view_entries(), path@, value);
    }
    tokens.insert(path, value);
}

/// Reads the palette entries into `[colors]`.
fn palette_colours(pairs: &Vec<(&str, &YamlNode)>, tokens: &mut PathMap<String>) -> (result: Result<(), ConvertError>)
    requires
        old(tokens).well_formed(),
    ensures
        final(tokens).well_formed(),
        match palette_tokens(
            pairs@.map_values(|p: (&str, &YamlNode)| (p.0@, *p.1)),
            0,
            map_of(old(tokens).view_entries()),
        ) {
            Ok(m) => result is Ok && map_of(final(tokens).view_entries()) == m,
            Err(expected) => result matches Err(e) && e@ == expected,
        },
{
    let ghost views = pairs@.map_values(|p: (&str, &YamlNode)| (p.0@, *p.1));
    let ghost start = map_of(tokens.view_entries());
    proof {
        reveal_strlit("palette.");
        reveal_strlit("colors");
        reveal_strlit("a string");
    }
    let colors = known("colors");
    let mut i: usize = 0;
    while i < pairs.len()
        invariant
            i <= pairs@.len(),
            views == pairs@.map_values(|p: (&str, &YamlNode)| (p.0@, *p.1)),
            colors@ == "colors"@,
            start == map_of(old(tokens).view_entries()),
            tokens.well_formed(),
            palette_tokens(views, 0, start) == palette_tokens(views, i as int, map_of(tokens.view_entries())),
        decreases pairs@.len() - i,
    {
        let key = pairs[i].0;
        let value = pairs[i].1;
        proof {
            assert(views[i as int] == (key@, *value));
        }
        let mut at_chars: Vec<char> = Vec::new();
        push_str(&mut at_chars, "palette.");
        push_str(&mut at_chars, key);
        let at = string_of(at_chars.as_slice());
        proof {
            assert(at@ == "palette."@ + key@);
        }
        let path = match colors.child(key) {
            Some(path) => path,
            None => return Err(ConvertError::Segment { key: at, segment: key.to_owned() }),
        };
        let written = match value {
            YamlNode::Str(text) => text.as_str(),
            _ => return Err(ConvertError::Invalid {
                source: Problem::Type { key: at, expected: "a string" },
            }),
        };
        let channels = match hex(at.as_str(), written) {
            Ok(channels) => channels,
            Err(e) => return Err(e),
        };
        bind(tokens, path, literal(channels));
        i = i + 1;
    }
    Ok(())
}

/// The path the dotted key `key`, written in the mapping at `at`, reaches.
fn descend_key(at: &TokenPath, key: &str) -> (result: Result<TokenPath, ConvertError>)
    ensures
        match (result, descend(at@, key@, split_on(key@, '.'), 0, at@)) {
            (Ok(p), Ok(expected)) => p@ == expected,
            (Err(e), Err(expected)) => e@ == expected,
            _ => false,
        },
{
    proof {
        reveal_strlit("default");
        reveal_strlit(".");
    }
    let key_chars = chars_of(key);
    let parts = split_chars(key_chars.as_slice(), '.');
    let ghost views = parts@.map_values(|p: Vec<char>| p@);
    let mut path = at.clone();
    let mut i: usize = 0;
    while i < parts.len()
        invariant
            i <= parts@.len(),
            views == parts@.map_values(|p: Vec<char>| p@),
            views == split_on(key@, '.'),
            descend(at@, key@, views, 0, at@) == descend(at@, key@, views, i as int, path@),
        decreases parts@.len() - i,
    {
        let part = string_of(parts[i].as_slice());
        let next = match path.child(part.as_str()) {
            Some(next) => next,
            None => {
                let mut whole: Vec<char> = Vec::new();
                push_str(&mut whole, at.as_str());
                push_str(&mut whole, ".");
                push_str(&mut whole, key);
                return Err(ConvertError::Segment { key: string_of(whole.as_slice()), segment: part });
            },
        };
        if same_text(part.as_str(), "default") {
            return Err(ConvertError::Reserved { key: next.as_str().to_owned(), segment: "default" });
        }
        path = next;
        i = i + 1;
    }
    Ok(path)
}

/// Reads the theming property `value` at `path` into `tokens`.
fn properties(value: &YamlNode, path: &TokenPath, tokens: &mut PathMap<String>) -> (result: Result<(), ConvertError>)
    requires
        old(tokens).well_formed(),
    ensures
        final(tokens).well_formed(),
        match props_value(*value, path@, map_of(old(tokens).view_entries())) {
            Ok(m) => result is Ok && map_of(final(tokens).view_entries()) == m,
            Err(expected) => result matches Err(e) && e@ == expected,
        },
    decreases *value,
{
    proof {
        reveal_strlit("default");
        reveal_strlit("a string");
        reveal_strlit("a mapping with string keys");
    }
    match value {
        YamlNode::Mapping(list) => {
            let mut i: usize = 0;
            while i < list.len()
                invariant
                    i <= list@.len(),
                    *value == YamlNode::Mapping(*list),
                    *tokens == *old(tokens),
                    old(tokens).well_formed(),
                    forall|j: int| 0 <= j < i ==> (#[trigger] list@[j]).key is Some,
                decreases list@.len() - i,
            {
                if list[i].key.is_none() {
                    proof {
                        assert(!string_keys(list@));
                    }
                    return Err(ConvertError::Invalid {
                        source: Problem::Type { key: path.as_str().to_owned(), expected: "a mapping with string keys" },
                    });
                }
                i = i + 1;
            }
            let ghost start = map_of(tokens.view_entries());
            let mut k: usize = 0;
            while k < list.len()
                invariant
                    k <= list@.len(),
                    *value == YamlNode::Mapping(*list),
                    string_keys(list@),
                    start == map_of(old(tokens).view_entries()),
                    props_value(*value, path@, start) == props_entries(list@, 0, path@, start),
                    tokens.well_formed(),
                    props_entries(list@, 0, path@, start) == props_entries(list@, k as int, path@, map_of(tokens.view_entries())),
                decreases list@.len() - k,
            {
                let entry = &list[k];
                let key = match &entry.key {
                    Some(key) => key.as_str(),
                    None => {
                        proof {
                            assert(list@[k as int].key is Some);
                        }
                        return Ok(());
                    },
                };
                proof {
                    assert(key@ == list@[k as int].key->0@);
                }
                let reached = match descend_key(path, key) {
                    Ok(reached) => reached,
                    Err(e) => return Err(e),
                };
                proof {
                    assert(decreases_to!(*value => list@[k as int].value));
                }
                match properties(&entry.value, &reached, tokens) {
                    Ok(()) => {},
                    Err(e) => return Err(e),
                }
                k = k + 1;
            }
            Ok(())
        },
        YamlNode::Str(text) => {
            let token = match path.child("default") {
                Some(token) => token,
                None => return Ok(()),
            };
            if tokens.contains(&token) {
                return Err(ConvertError::Duplicate { path: token });
            }
            let channels = match hex(path.as_str(), text.as_str()) {
                Ok(channels) => channels,
                Err(e) => return Err(e),
            };
            bind(tokens, token, literal(channels));
            Ok(())
        },
        YamlNode::Other => Err(ConvertError::Invalid {
            source: Problem::Type { key: path.as_str().to_owned(), expected: "a string" },
        }),
    }
}

/// Reads the block `block` of `document`, when it writes one, into `tokens`.
fn block(document: &YamlNode, name: &'static str, tokens: &mut PathMap<String>) -> (result: Result<(), ConvertError>)
    requires
        old(tokens).well_formed(),
        is_segment_spec(name@),
    ensures
        final(tokens).well_formed(),
        match block_spec(*document, name@, map_of(old(tokens).view_entries())) {
            Ok(m) => result is Ok && map_of(final(tokens).view_entries()) == m,
            Err(expected) => result matches Err(e) && e@ == expected,
        },
{
    if !writes(document, name) {
        return Ok(());
    }
    let node = match nested(document, name) {
        Ok(node) => node,
        Err(source) => return Err(ConvertError::Invalid { source }),
    };
    proof {
        crate::token::lemma_segment_is_path(name@);
    }
    let path = known(name);
    properties(node, &path, tokens)
}

/// `{{colors.<key>}}`.
fn colors_ref_text(key: &str) -> (text: String)
    ensures
        text@ == colors_ref(key@),
{
    proof {
        reveal_strlit("{{colors.");
        reveal_strlit("}}");
    }
    let mut chars: Vec<char> = Vec::new();
    push_str(&mut chars, "{{colors.");
    push_str(&mut chars, key);
    push_str(&mut chars, "}}");
    string_of(chars.as_slice())
}

/// What the role of `r` holds.
fn role(
    props: &PathMap<String>,
    palette: &YamlNode,
    variant: Variant,
    property: Option<&str>,
    keys: &[&str],
    hue_name: &str,
    Ghost(r): Ghost<RoleRow>,
) -> (value: String)
    requires
        props.well_formed(),
        r.property == match property {
            Some(p) => Some(p@),
            None => None::<Seq<char>>,
        },
        property matches Some(p) ==> is_path_spec(p@),
        r.keys == keys@.map_values(|k: &str| k@),
        r.hue == hue_name@,
    ensures
        value@ == role_value(map_of(props.view_entries()), *palette, variant, r),
{
    proof {
        reveal_strlit("default");
        reveal_strlit("{{");
        reveal_strlit("}}");
    }
    let ghost props_map = map_of(props.view_entries());
    match property {
        Some(p) => {
            let base = known(p);
            let stated = match base.child("default") {
                Some(stated) => stated,
                None => {
                    proof {
                        assert(false);
                    }
                    base
                },
            };
            if props.contains(&stated) {
                let mut chars: Vec<char> = Vec::new();
                push_str(&mut chars, "{{");
                push_str(&mut chars, stated.as_str());
                push_str(&mut chars, "}}");
                return string_of(chars.as_slice());
            }
        },
        None => {},
    }
    proof {
        assert(role_value(props_map, *palette, variant, r) == match first_written(*palette, r.keys, variant, 0) {
            Some(k) => colors_ref(k),
            None => colors_ref(mirror_spec(r.hue, variant)),
        });
    }
    let mut j: usize = 0;
    while j < keys.len()
        invariant
            j <= keys@.len(),
            r.keys == keys@.map_values(|k: &str| k@),
            props_map == map_of(props.view_entries()),
            role_value(props_map, *palette, variant, r) == match first_written(*palette, r.keys, variant, 0) {
                Some(k) => colors_ref(k),
                None => colors_ref(mirror_spec(r.hue, variant)),
            },
            first_written(*palette, r.keys, variant, 0) == first_written(*palette, r.keys, variant, j as int),
        decreases keys@.len() - j,
    {
        let mirrored = mirror(keys[j], variant);
        proof {
            assert(r.keys[j as int] == keys@[j as int]@);
        }
        if writes(palette, mirrored.as_str()) {
            return colors_ref_text(mirrored.as_str());
        }
        j = j + 1;
    }
    let mirrored = mirror(hue_name, variant);
    colors_ref_text(mirrored.as_str())
}

/// Pairs a role's path with its value.
fn role_entry(
    props: &PathMap<String>,
    palette: &YamlNode,
    variant: Variant,
    path: &str,
    property: Option<&str>,
    keys: &[&str],
    hue_name: &str,
    Ghost(r): Ghost<RoleRow>,
) -> (entry: (TokenPath, String))
    requires
        props.well_formed(),
        is_path_spec(path@),
        r.path == path@,
        r.property == match property {
            Some(p) => Some(p@),
            None => None::<Seq<char>>,
        },
        property matches Some(p) ==> is_path_spec(p@),
        r.keys == keys@.map_values(|k: &str| k@),
        r.hue == hue_name@,
    ensures
        entry.0@ == r.path,
        entry.1@ == role_value(map_of(props.view_entries()), *palette, variant, r),
{
    (known(path), role(props, palette, variant, property, keys, hue_name, Ghost(r)))
}

/// Every core role and what it holds, given the properties the scheme stated.
fn role_entries(props: &PathMap<String>, palette: &YamlNode, variant: Variant) -> (entries: Vec<(TokenPath, String)>)
    requires
        props.well_formed(),
    ensures
        entries@.map_values(|e: (TokenPath, String)| (e.0@, e.1@)) == role_pairs(map_of(props.view_entries()), *palette, variant),
{
    let ghost rows = role_rows();
    proof {
        reveal_strlit("role.bg");
        reveal_strlit("role.fg");
        reveal_strlit("role.comment");
        reveal_strlit("role.keyword");
        reveal_strlit("role.string");
        reveal_strlit("role.error");
        reveal_strlit("role.ok");
        reveal_strlit("role.warn");
        reveal_strlit("role.visual");
        reveal_strlit("role.linenr");
        reveal_strlit("role.accent");
        reveal_strlit("role.accent-alt");
        reveal_strlit("role.accent-warm");
        reveal_strlit("role.inactive");
        reveal_strlit("role.border");
        reveal_strlit("role.selection-bg");
        reveal_strlit("role.hover-bg");
        reveal_strlit("ui.global.normal.background");
        reveal_strlit("ui.global.normal.foreground");
        reveal_strlit("syntax.comment");
        reveal_strlit("syntax.keyword");
        reveal_strlit("syntax.string");
        reveal_strlit("ui.status.error");
        reveal_strlit("ui.status.success");
        reveal_strlit("ui.status.warning");
        reveal_strlit("ui.highlight.search.foreground");
        reveal_strlit("ui.gutter.foreground");
        reveal_strlit("ui.accent.normal");
        reveal_strlit("ui.border.normal");
        reveal_strlit("ui.selection.background");
        reveal_strlit("ui.highlight.line.background");
        reveal_strlit("black");
        reveal_strlit("white");
        reveal_strlit("magenta");
        reveal_strlit("green");
        reveal_strlit("red");
        reveal_strlit("yellow");
        reveal_strlit("cyan");
        reveal_strlit("blue");
        reveal_strlit("gray-dim");
        reveal_strlit("gray");
        reveal_strlit("white-dim");
        reveal_strlit("orange");
        reveal_strlit("black-bright");
        reveal_strlit("black-dim");
    }
    let none: [&str; 0] = [];
    let mut out: Vec<(TokenPath, String)> = Vec::new();
    proof {
        assert(none@.map_values(|k: &str| k@) =~= Seq::<Seq<char>>::empty());
    }
    out.push(role_entry(props, palette, variant, "role.bg", Some("ui.global.normal.background"), &none, "black", Ghost(rows[0])));
    out.push(role_entry(props, palette, variant, "role.fg", Some("ui.global.normal.foreground"), &none, "white", Ghost(rows[1])));
    let comment = ["gray-dim", "gray"];
    proof {
        assert(comment@.map_values(|k: &str| k@) =~= seq!["gray-dim"@, "gray"@]);
    }
    out.push(role_entry(props, palette, variant, "role.comment", Some("syntax.comment"), &comment, "white", Ghost(rows[2])));
    out.push(role_entry(props, palette, variant, "role.keyword", Some("syntax.keyword"), &none, "magenta", Ghost(rows[3])));
    out.push(role_entry(props, palette, variant, "role.string", Some("syntax.string"), &none, "green", Ghost(rows[4])));
    out.push(role_entry(props, palette, variant, "role.error", Some("ui.status.error"), &none, "red", Ghost(rows[5])));
    out.push(role_entry(props, palette, variant, "role.ok", Some("ui.status.success"), &none, "green", Ghost(rows[6])));
    out.push(role_entry(props, palette, variant, "role.warn", Some("ui.status.warning"), &none, "yellow", Ghost(rows[7])));
    out.push(role_entry(props, palette, variant, "role.visual", Some("ui.highlight.search.foreground"), &none, "yellow", Ghost(rows[8])));
    let linenr = ["white-dim"];
    proof {
        assert(linenr@.map_values(|k: &str| k@) =~= seq!["white-dim"@]);
    }
    out.push(role_entry(props, palette, variant, "role.linenr", Some("ui.gutter.foreground"), &linenr, "white", Ghost(rows[9])));
    out.push(role_entry(props, palette, variant, "role.accent", Some("ui.accent.normal"), &none, "cyan", Ghost(rows[10])));
    out.push(role_entry(props, palette, variant, "role.accent-alt", None, &none, "blue", Ghost(rows[11])));
    let warm = ["orange"];
    proof {
        assert(warm@.map_values(|k: &str| k@) =~= seq!["orange"@]);
    }
    out.push(role_entry(props, palette, variant, "role.accent-warm", None, &warm, "yellow", Ghost(rows[12])));
    let inactive = ["gray"];
    proof {
        assert(inactive@.map_values(|k: &str| k@) =~= seq!["gray"@]);
    }
    out.push(role_entry(props, palette, variant, "role.inactive", None, &inactive, "white", Ghost(rows[13])));
    out.push(role_entry(props, palette, variant, "role.border", Some("ui.border.normal"), &comment, "black", Ghost(rows[14])));
    let selection = ["black-bright", "black-dim", "gray"];
    proof {
        assert(selection@.map_values(|k: &str| k@) =~= seq!["black-bright"@, "black-dim"@, "gray"@]);
    }
    out.push(role_entry(props, palette, variant, "role.selection-bg", Some("ui.selection.background"), &selection, "black", Ghost(rows[15])));
    let hover = ["gray-dim", "black-bright", "black-dim", "gray"];
    proof {
        assert(hover@.map_values(|k: &str| k@) =~= seq!["gray-dim"@, "black-bright"@, "black-dim"@, "gray"@]);
    }
    out.push(role_entry(props, palette, variant, "role.hover-bg", Some("ui.highlight.line.background"), &hover, "black", Ghost(rows[16])));
    proof {
        assert(out@.map_values(|e: (TokenPath, String)| (e.0@, e.1@)) =~= role_pairs(map_of(props.view_entries()), *palette, variant));
    }
    out
}

/// The palette key terminal slot `i` takes.
fn ansi_source(palette: &YamlNode, i: usize) -> (key: String)
    requires
        i < 16,
    ensures
        key@ == if i < 8 {
            hues()[i as int]
        } else {
            bright_source(*palette, i - 8)
        },
{
    proof {
        reveal_strlit("-bright");
    }
    if i < 8 {
        return hue(i).to_owned();
    }
    let mut chars: Vec<char> = Vec::new();
    push_str(&mut chars, hue(i - 8));
    push_str(&mut chars, "-bright");
    let bright = string_of(chars.as_slice());
    if writes(palette, bright.as_str()) {
        bright
    } else {
        hue(i - 8).to_owned()
    }
}

/// Binds `entries` in order.
fn bind_entries(
    tokens: &mut PathMap<String>,
    entries: Vec<(TokenPath, String)>,
    Ghost(base): Ghost<Map<Seq<char>, Seq<char>>>,
    Ghost(done): Ghost<Seq<(Seq<char>, Seq<char>)>>,
)
    requires
        old(tokens).well_formed(),
        map_of(old(tokens).view_entries()) == bind_all(base, done),
    ensures
        final(tokens).well_formed(),
        map_of(final(tokens).view_entries()) == bind_all(
            base,
            done + entries@.map_values(|e: (TokenPath, String)| (e.0@, e.1@)),
        ),
{
    let ghost views = entries@.map_values(|e: (TokenPath, String)| (e.0@, e.1@));
    let mut i: usize = 0;
    let n = entries.len();
    let mut rest = entries;
    let ghost all = rest@;
    proof {
        assert(done + views.take(0) =~= done);
    }
    while i < n
        invariant
            n == all.len(),
            i <= all.len(),
            rest@ == all.skip(i as int),
            views == all.map_values(|e: (TokenPath, String)| (e.0@, e.1@)),
            tokens.well_formed(),
            map_of(tokens.view_entries()) == bind_all(base, done + views.take(i as int)),
        decreases all.len() - i,
    {
        let entry = rest.remove(0);
        proof {
            assert(entry == all[i as int]);
            assert(rest@ =~= all.skip(i + 1));
            let before = done + views.take(i as int);
            assert(done + views.take(i + 1) =~= before.push(views[i as int]));
            assert((done + views.take(i + 1)).drop_last() =~= before);
        }
        bind(tokens, entry.0, entry.1);
        i = i + 1;
    }
    proof {
        assert(views.take(all.len() as int) =~= views);
    }
}

/// The first of the eight hues the palette does not write.
fn missing(palette: &YamlNode) -> (hue_name: Option<&'static str>)
    ensures
        match (hue_name, missing_hue(*palette, 0)) {
            (Some(h), Some(expected)) => h@ == expected,
            (None, None) => true,
            _ => false,
        },
{
    let mut j: usize = 0;
    while j < 8
        invariant
            j <= 8,
            missing_hue(*palette, 0) == missing_hue(*palette, j as int),
        decreases 8 - j,
    {
        if !writes(palette, hue(j)) {
            return Some(hue(j));
        }
        j = j + 1;
    }
    None
}

/// Binding `pairs` in order leaves a key with the value of the last pair that names it.
proof fn lemma_bind_all_last(tokens: Map<Seq<char>, Seq<char>>, pairs: Seq<(Seq<char>, Seq<char>)>, j: int)
    requires
        0 <= j < pairs.len(),
        forall|k: int| j < k < pairs.len() ==> #[trigger] pairs[k].0 != pairs[j].0,
    ensures
        bind_all(tokens, pairs).contains_key(pairs[j].0),
        bind_all(tokens, pairs)[pairs[j].0] == pairs[j].1,
    decreases pairs.len(),
{
    if j < pairs.len() - 1 {
        let rest = pairs.drop_last();
        assert forall|k: int| j < k < rest.len() implies #[trigger] rest[k].0 != rest[j].0 by {
            assert(rest[k] == pairs[k]);
        }
        lemma_bind_all_last(tokens, rest, j);
        assert(pairs.last() == pairs[pairs.len() - 1]);
    }
}

/// Binding `pairs` binds every key a pair names.
proof fn lemma_bind_all_binds(tokens: Map<Seq<char>, Seq<char>>, pairs: Seq<(Seq<char>, Seq<char>)>, j: int)
    requires
        0 <= j < pairs.len(),
    ensures
        bind_all(tokens, pairs).contains_key(pairs[j].0),
    decreases pairs.len(),
{
    if j < pairs.len() - 1 {
        lemma_bind_all_binds(tokens, pairs.drop_last(), j);
        assert(pairs.drop_last()[j] == pairs[j]);
    }
}

/// Binding pairs keeps every key already bound.
proof fn lemma_bind_all_keeps(tokens: Map<Seq<char>, Seq<char>>, pairs: Seq<(Seq<char>, Seq<char>)>, key: Seq<char>)
    requires
        tokens.contains_key(key),
    ensures
        bind_all(tokens, pairs).contains_key(key),
    decreases pairs.len(),
{
    if pairs.len() > 0 {
        lemma_bind_all_keeps(tokens, pairs.drop_last(), key);
    }
}

/// The palette's entries become `colors.<key>`, and nothing bound before is lost.
proof fn lemma_palette_tokens(pairs: Seq<(Seq<char>, YamlNode)>, i: int, tokens: Map<Seq<char>, Seq<char>>)
    requires
        0 <= i,
    ensures
        palette_tokens(pairs, i, tokens) matches Ok(t) ==> {
            &&& forall|k: Seq<char>| tokens.contains_key(k) ==> #[trigger] t.contains_key(k)
            &&& forall|e: int| i <= e < pairs.len() ==> #[trigger] t.contains_key(joined("colors"@, pairs[e].0))
        },
    decreases pairs.len() - i,
{
    if i < pairs.len() {
        let key = pairs[i].0;
        if is_segment_spec(key) {
            if let YamlNode::Str(text) = pairs[i].1 {
                if let Ok(c) = hex_spec("palette."@ + key, text@) {
                    let next = tokens.insert(joined("colors"@, key), literal_spec(c));
                    lemma_palette_tokens(pairs, i + 1, next);
                }
            }
        }
    }
}

/// A key the mapping finds from `i` on is the key of one of its entries there.
proof fn lemma_find_from(entries: Seq<YamlEntry>, key: Seq<char>, i: int)
    requires
        0 <= i,
        find_from(entries, key, i) is Some,
    ensures
        exists|e: int| i <= e < entries.len() && #[trigger] key_is(entries[e], key),
    decreases entries.len() - i,
{
    if !key_is(entries[i], key) {
        lemma_find_from(entries, key, i + 1);
    }
}

/// A key the palette writes is the key of one of its entries.
proof fn lemma_written_entry(palette: YamlNode, key: Seq<char>)
    requires
        entries_spec(palette, "palette"@) is Ok,
        get_spec(palette, key) is Some,
    ensures
        exists|e: int| 0 <= e < entries_spec(palette, "palette"@)->Ok_0.len() && #[trigger] entries_spec(palette, "palette"@)->Ok_0[e].0 == key,
{
    if let YamlNode::Mapping(entries) = palette {
        lemma_find_from(entries@, key, 0);
        let e = choose|e: int| 0 <= e < entries@.len() && #[trigger] key_is(entries@[e], key);
        assert(entries_spec(palette, "palette"@)->Ok_0[e].0 == key);
    }
}

/// Reading theming properties keeps every token bound before.
proof fn lemma_props_value_keeps(value: YamlNode, path: Seq<char>, tokens: Map<Seq<char>, Seq<char>>)
    ensures
        props_value(value, path, tokens) matches Ok(t) ==> forall|k: Seq<char>| tokens.contains_key(k) ==> #[trigger] t.contains_key(k),
    decreases value, 0int,
{
    if let YamlNode::Mapping(entries) = value {
        if string_keys(entries@) {
            lemma_props_entries_keeps(entries@, 0, path, tokens);
        }
    }
}

/// Reading the entries of a mapping of theming properties keeps every token bound before.
proof fn lemma_props_entries_keeps(entries: Seq<YamlEntry>, i: int, path: Seq<char>, tokens: Map<Seq<char>, Seq<char>>)
    ensures
        props_entries(entries, i, path, tokens) matches Ok(t) ==> forall|k: Seq<char>| tokens.contains_key(k) ==> #[trigger] t.contains_key(k),
    decreases entries, entries.len() - i,
{
    if 0 <= i < entries.len() {
        let key = entries[i].key->0@;
        if let Ok(reached) = descend(path, key, split_on(key, '.'), 0, path) {
            lemma_props_value_keeps(entries[i].value, reached, tokens);
            if let Ok(next) = props_value(entries[i].value, reached, tokens) {
                lemma_props_entries_keeps(entries, i + 1, path, next);
            }
        }
    }
}

/// Reading a block keeps every token bound before.
proof fn lemma_block_keeps(document: YamlNode, block: Seq<char>, tokens: Map<Seq<char>, Seq<char>>)
    ensures
        block_spec(document, block, tokens) matches Ok(t) ==> forall|k: Seq<char>| tokens.contains_key(k) ==> #[trigger] t.contains_key(k),
{
    if get_spec(document, block) is Some {
        if let Ok(node) = nested_spec(document, block) {
            lemma_props_value_keeps(node, block, tokens);
        }
    }
}

/// A palette with no hue missing from `j` on writes each of them.
proof fn lemma_no_missing_hue(palette: YamlNode, j: int)
    requires
        0 <= j <= 8,
        missing_hue(palette, j) is None,
    ensures
        forall|h: int| j <= h < 8 ==> get_spec(palette, #[trigger] hues()[h]) is Some,
    decreases 8 - j,
{
    if j < 8 {
        lemma_no_missing_hue(palette, j + 1);
    }
}

/// The key a chain settles on is one the palette writes.
proof fn lemma_first_written(palette: YamlNode, keys: Seq<Seq<char>>, variant: Variant, j: int)
    requires
        0 <= j,
    ensures
        first_written(palette, keys, variant, j) matches Some(k) ==> get_spec(palette, k) is Some,
    decreases keys.len() - j,
{
    if j < keys.len() && get_spec(palette, mirror_spec(keys[j], variant)) is None {
        lemma_first_written(palette, keys, variant, j + 1);
    }
}

/// `{{colors.<key>}}` refers to the token `colors.<key>`.
proof fn lemma_colors_ref(key: Seq<char>)
    ensures
        colors_ref(key) == path_ref(joined("colors"@, key)),
{
    reveal_strlit("{{colors.");
    reveal_strlit("{{");
    reveal_strlit("}}");
    reveal_strlit("colors");
    assert(colors_ref(key) =~= path_ref(joined("colors"@, key)));
}

/// A hue read through the mirror of either variant is a hue again.
proof fn lemma_hue_mirrors(variant: Variant)
    ensures
        forall|h: int| 0 <= h < 8 ==> exists|g: int| 0 <= g < 8 && #[trigger] mirror_spec(hues()[h], variant) == hues()[g],
{
    reveal_strlit("black");
    reveal_strlit("red");
    reveal_strlit("green");
    reveal_strlit("yellow");
    reveal_strlit("blue");
    reveal_strlit("magenta");
    reveal_strlit("cyan");
    reveal_strlit("white");
    reveal_strlit("black-dim");
    reveal_strlit("black-bright");
    reveal_strlit("gray-dim");
    reveal_strlit("gray");
    reveal_strlit("gray-bright");
    reveal_strlit("white-dim");
    reveal_strlit("white-bright");
    reveal_with_fuel(scale_index, 10);
    assert forall|h: int| 0 <= h < 8 implies exists|g: int| 0 <= g < 8 && #[trigger] mirror_spec(hues()[h], variant) == hues()[g] by {
        if variant == Variant::Dark {
            assert(mirror_spec(hues()[h], variant) == hues()[h]);
        } else if h == 0 {
            assert(scale()[0].len() == 9);
            assert(scale()[1] == hues()[0]);
            assert(scale_index(hues()[0], 0) == Some(1int));
            assert(mirror_spec(hues()[h], variant) == hues()[7]);
        } else if h == 7 {
            let x = hues()[7];
            assert forall|i: int| 0 <= i < 7 implies #[trigger] scale()[i] != x by {
                if scale()[i].len() == x.len() {
                    assert(scale()[i][0] != x[0]);
                }
            }
            assert(scale()[7] == x);
            assert(scale_index(x, 7) == Some(7int));
            assert(scale_index(x, 6) == Some(7int));
            assert(scale_index(x, 5) == Some(7int));
            assert(scale_index(x, 4) == Some(7int));
            assert(scale_index(x, 3) == Some(7int));
            assert(scale_index(x, 2) == Some(7int));
            assert(scale_index(x, 1) == Some(7int));
            assert(scale_index(hues()[7], 0) == Some(7int));
            assert(mirror_spec(hues()[h], variant) == hues()[0]);
        } else {
            let x = hues()[h];
            assert forall|i: int| 0 <= i < 9 implies #[trigger] scale()[i] != x by {
                if scale()[i].len() == x.len() {
                    assert(scale()[i][0] != x[0]);
                }
            }
            assert(scale_index(x, 9) is None);
            assert(scale_index(x, 8) is None);
            assert(scale_index(x, 7) is None);
            assert(scale_index(x, 6) is None);
            assert(scale_index(x, 5) is None);
            assert(scale_index(x, 4) is None);
            assert(scale_index(x, 3) is None);
            assert(scale_index(x, 2) is None);
            assert(scale_index(x, 1) is None);
            assert(scale_index(hues()[h], 0) is None);
            assert(mirror_spec(hues()[h], variant) == hues()[h]);
        }
    }
}

/// A converted tinted8 scheme binds every core role, and fills the sixteen terminal slots
/// with the eight hues of its palette, then the `-bright` variant of each where the palette
/// writes one and the hue itself where it does not.
pub proof fn lemma_tinted8_fills_the_core(document: YamlNode)
    requires
        tinted8_spec(document) is Ok,
    ensures
        forall|r: int| 0 <= r < role_paths().len() ==> tinted8_spec(document)->Ok_0.tokens.contains_key(#[trigger] role_paths()[r]),
        forall|i: int|
            0 <= i < 16 ==> tinted8_spec(document)->Ok_0.tokens.contains_key(#[trigger] ansi_path(i as nat))
                && tinted8_spec(document)->Ok_0.tokens[ansi_path(i as nat)] == colors_ref(
                if i < 8 {
                    hues()[i]
                } else {
                    bright_source(nested_spec(document, "palette"@)->Ok_0, i - 8)
                },
            ),
{
    let scheme = nested_spec(document, "scheme"@)->Ok_0;
    let variant = variant_of(required_spec(document, "variant"@)->Ok_0)->0;
    let palette = nested_spec(document, "palette"@)->Ok_0;
    let colours = palette_tokens(entries_spec(palette, "palette"@)->Ok_0, 0, Map::empty())->Ok_0;
    let props = block_spec(document, "ui"@, block_spec(document, "syntax"@, colours)->Ok_0)->Ok_0;
    let author = optional_spec(scheme, "author"@)->Ok_0;
    let a = ansi_pairs(palette);
    let r = role_pairs(props, palette, variant);
    let u = author_pairs(author);
    let all = a + r + u;
    assert(tinted8_spec(document)->Ok_0.tokens == bind_all(props, all));
    reveal_strlit("ansi.");
    reveal_strlit("meta.author");
    reveal_strlit("role.bg");
    reveal_strlit("role.fg");
    reveal_strlit("role.comment");
    reveal_strlit("role.keyword");
    reveal_strlit("role.string");
    reveal_strlit("role.error");
    reveal_strlit("role.ok");
    reveal_strlit("role.warn");
    reveal_strlit("role.visual");
    reveal_strlit("role.linenr");
    reveal_strlit("role.accent");
    reveal_strlit("role.accent-alt");
    reveal_strlit("role.accent-warm");
    reveal_strlit("role.inactive");
    reveal_strlit("role.border");
    reveal_strlit("role.selection-bg");
    reveal_strlit("role.hover-bg");
    assert(role_rows().len() == 17);
    assert(forall|k: int| 0 <= k < 17 ==> (#[trigger] role_rows()[k]).path == role_paths()[k] && role_paths()[k][0] == 'r');
    assert forall|k: int| 0 <= k < r.len() implies (#[trigger] r[k]).0 == role_paths()[k] by {
        assert(r[k].0 == role_rows()[k].path);
    }
    assert forall|k: int| 0 <= k < u.len() implies (#[trigger] u[k]).0 == "meta.author"@ by {}
    assert forall|q: int| 0 <= q < role_paths().len() implies bind_all(props, all).contains_key(#[trigger] role_paths()[q]) by {
        assert(all[16 + q] == r[q]);
        lemma_bind_all_binds(props, all, 16 + q);
    }
    assert forall|i: int|
        0 <= i < 16 implies bind_all(props, all).contains_key(#[trigger] ansi_path(i as nat)) && bind_all(props, all)[ansi_path(
            i as nat,
        )] == a[i].1 by {
        assert(all[i] == a[i]);
        assert(a[i].0 == ansi_path(i as nat));
        assert(ansi_path(i as nat)[0] == 'a');
        assert forall|k: int| i < k < all.len() implies #[trigger] all[k].0 != all[i].0 by {
            if k < 16 {
                assert(all[k] == a[k]);
                if ansi_path(k as nat) == ansi_path(i as nat) {
                    assert(ansi_path(k as nat).skip(5) == crate::text::decimal(k as nat));
                    assert(ansi_path(i as nat).skip(5) == crate::text::decimal(i as nat));
                    crate::text::lemma_decimal_injective(k as nat, i as nat);
                }
            } else if k < 33 {
                assert(all[k] == r[k - 16]);
                assert(all[k].0[0] == 'r');
            } else {
                assert(all[k] == u[k - 33]);
                assert(all[k].0[0] == 'm');
            }
        }
        lemma_bind_all_last(props, all, i);
    }
}

/// A key the palette of a converted scheme writes is bound as `colors.<key>`.
proof fn lemma_written_bound(document: YamlNode, key: Seq<char>)
    requires
        tinted8_spec(document) is Ok,
        get_spec(nested_spec(document, "palette"@)->Ok_0, key) is Some,
    ensures
        tinted8_spec(document)->Ok_0.tokens.contains_key(joined("colors"@, key)),
{
    let scheme = nested_spec(document, "scheme"@)->Ok_0;
    let variant = variant_of(required_spec(document, "variant"@)->Ok_0)->0;
    let palette = nested_spec(document, "palette"@)->Ok_0;
    let pairs = entries_spec(palette, "palette"@)->Ok_0;
    let colours = palette_tokens(pairs, 0, Map::empty())->Ok_0;
    let syntax = block_spec(document, "syntax"@, colours)->Ok_0;
    let props = block_spec(document, "ui"@, syntax)->Ok_0;
    let author = optional_spec(scheme, "author"@)->Ok_0;
    let all = ansi_pairs(palette) + role_pairs(props, palette, variant) + author_pairs(author);
    assert(tinted8_spec(document)->Ok_0.tokens == bind_all(props, all));
    lemma_written_entry(palette, key);
    let e = choose|e: int| 0 <= e < pairs.len() && #[trigger] pairs[e].0 == key;
    lemma_palette_tokens(pairs, 0, Map::empty());
    assert(colours.contains_key(joined("colors"@, pairs[e].0)));
    lemma_block_keeps(document, "syntax"@, colours);
    lemma_block_keeps(document, "ui"@, syntax);
    lemma_bind_all_keeps(props, all, joined("colors"@, key));
}

/// `path` is bound to a reference to another token that is bound too.
pub open spec fn refers_within(tokens: Map<Seq<char>, Seq<char>>, path: Seq<char>) -> bool {
    &&& tokens.contains_key(path)
    &&& exists|target: Seq<char>| tokens[path] == path_ref(target) && #[trigger] tokens.contains_key(target)
}

/// Every core token of a converted tinted8 scheme is a reference to another token the scheme
/// binds: a theming property it states, or a key its palette writes.
pub proof fn lemma_tinted8_core_refers_within(document: YamlNode)
    requires
        tinted8_spec(document) is Ok,
    ensures
        forall|q: int| 0 <= q < core_paths().len() ==> #[trigger] refers_within(tinted8_spec(document)->Ok_0.tokens, core_paths()[q]),
{
    let scheme = nested_spec(document, "scheme"@)->Ok_0;
    let variant = variant_of(required_spec(document, "variant"@)->Ok_0)->0;
    let palette = nested_spec(document, "palette"@)->Ok_0;
    let pairs = entries_spec(palette, "palette"@)->Ok_0;
    let colours = palette_tokens(pairs, 0, Map::empty())->Ok_0;
    let syntax = block_spec(document, "syntax"@, colours)->Ok_0;
    let props = block_spec(document, "ui"@, syntax)->Ok_0;
    let author = optional_spec(scheme, "author"@)->Ok_0;
    let a = ansi_pairs(palette);
    let r = role_pairs(props, palette, variant);
    let u = author_pairs(author);
    let all = a + r + u;
    let tokens = tinted8_spec(document)->Ok_0.tokens;
    assert(tokens == bind_all(props, all));
    lemma_tinted8_fills_the_core(document);
    lemma_no_missing_hue(palette, 0);
    lemma_hue_mirrors(variant);
    reveal_strlit("meta.author");
    reveal_strlit("role.bg");
    reveal_strlit("role.fg");
    reveal_strlit("role.comment");
    reveal_strlit("role.keyword");
    reveal_strlit("role.string");
    reveal_strlit("role.error");
    reveal_strlit("role.ok");
    reveal_strlit("role.warn");
    reveal_strlit("role.visual");
    reveal_strlit("role.linenr");
    reveal_strlit("role.accent");
    reveal_strlit("role.accent-alt");
    reveal_strlit("role.accent-warm");
    reveal_strlit("role.inactive");
    reveal_strlit("role.border");
    reveal_strlit("role.selection-bg");
    reveal_strlit("role.hover-bg");
    assert(role_rows().len() == 17);
    assert(forall|k: int| 0 <= k < 17 ==> (#[trigger] role_rows()[k]).path == role_paths()[k] && role_paths()[k][0] == 'r');
    assert forall|x: int, y: int| 0 <= x < y < 17 implies #[trigger] role_paths()[x] != #[trigger] role_paths()[y] by {
        if role_paths()[x].len() == role_paths()[y].len() {
            assert(role_paths()[x][5] != role_paths()[y][5]);
        }
    }
    assert(hues()[0] == "black"@ && hues()[1] == "red"@ && hues()[2] == "green"@ && hues()[3] == "yellow"@);
    assert(hues()[4] == "blue"@ && hues()[5] == "magenta"@ && hues()[6] == "cyan"@ && hues()[7] == "white"@);
    assert forall|q: int| 0 <= q < 17 implies exists|h: int| 0 <= h < 8 && #[trigger] hues()[h] == (#[trigger] role_rows()[q]).hue by {}
    assert forall|q: int| 0 <= q < core_paths().len() implies #[trigger] refers_within(tokens, core_paths()[q]) by {
        if q < 17 {
            let path = role_paths()[q];
            assert(core_paths()[q] == path);
            assert(all[16 + q] == r[q]);
            assert(r[q] == (role_rows()[q].path, role_value(props, palette, variant, role_rows()[q])));
            assert forall|k: int| 16 + q < k < all.len() implies #[trigger] all[k].0 != all[16 + q].0 by {
                if k < 33 {
                    assert(all[k] == r[k - 16]);
                } else {
                    assert(all[k] == u[k - 33]);
                    assert(all[k].0[0] == 'm');
                }
            }
            lemma_bind_all_last(props, all, 16 + q);
            let row = role_rows()[q];
            match row.property {
                Some(p) if props.contains_key(joined(p, "default"@)) => {
                    lemma_bind_all_keeps(props, all, joined(p, "default"@));
                    assert(tokens.contains_key(joined(p, "default"@)));
                },
                _ => {
                    lemma_first_written(palette, row.keys, variant, 0);
                    match first_written(palette, row.keys, variant, 0) {
                        Some(key) => {
                            lemma_written_bound(document, key);
                            lemma_colors_ref(key);
                        },
                        None => {
                            let h = choose|h: int| 0 <= h < 8 && #[trigger] hues()[h] == role_rows()[q].hue;
                            let g = choose|g: int| 0 <= g < 8 && #[trigger] mirror_spec(hues()[h], variant) == hues()[g];
                            assert(get_spec(palette, hues()[g]) is Some);
                            lemma_written_bound(document, hues()[g]);
                            lemma_colors_ref(hues()[g]);
                        },
                    }
                },
            }
        } else {
            let i = q - 17;
            assert(core_paths()[q] == ansi_path(i as nat));
            let key = if i < 8 {
                hues()[i]
            } else {
                bright_source(palette, i - 8)
            };
            if i < 8 {
                assert(get_spec(palette, hues()[i]) is Some);
            } else {
                assert(get_spec(palette, hues()[i - 8]) is Some);
            }
            lemma_written_bound(document, key);
            lemma_colors_ref(key);
        }
    }
}

/// Converts `document`, a tinted8 scheme, into the theme model.
pub fn convert_tinted8(document: &YamlNode) -> (result: Result<Converted, ConvertError>)
    ensures
        crate::scheme::convert::outcome(result) == tinted8_spec(*document),
{
    proof {
        reveal_strlit("scheme");
        reveal_strlit("variant");
        reveal_strlit("palette");
        reveal_strlit("syntax");
        reveal_strlit("ui");
        reveal_strlit("author");
        reveal_strlit("meta.author");
    }
    let scheme = match nested(document, "scheme") {
        Ok(scheme) => scheme,
        Err(source) => return Err(ConvertError::Invalid { source }),
    };
    let name = match name(scheme) {
        Ok(name) => name,
        Err(e) => return Err(e),
    };
    let written = match required(document, "variant") {
        Ok(written) => written,
        Err(source) => return Err(ConvertError::Invalid { source }),
    };
    let variant = match Variant::parse(written) {
        Some(variant) => variant,
        None => return Err(ConvertError::Invalid { source: Problem::Variant(written.to_owned()) }),
    };
    let palette = match nested(document, "palette") {
        Ok(palette) => palette,
        Err(source) => return Err(ConvertError::Invalid { source }),
    };
    match missing(palette) {
        Some(hue) => return Err(ConvertError::Slot { system: System::Tinted8, slot: hue.to_owned() }),
        None => {},
    }
    let pairs = match entries(palette, "palette") {
        Ok(pairs) => pairs,
        Err(source) => return Err(ConvertError::Invalid { source }),
    };
    proof {
        match entries_spec(*palette, "palette"@) {
            Ok(expected) => {
                assert(pairs@.map_values(|p: (&str, &YamlNode)| (p.0@, *p.1)) =~= expected);
            },
            Err(_) => {},
        }
    }
    let mut tokens: PathMap<String> = PathMap::new();
    proof {
        assert(map_of(tokens.view_entries()) =~= Map::<Seq<char>, Seq<char>>::empty());
    }
    match palette_colours(&pairs, &mut tokens) {
        Ok(()) => {},
        Err(e) => return Err(e),
    }
    proof {
        crate::token::lemma_segment_is_path("syntax"@);
    }
    match block(document, "syntax", &mut tokens) {
        Ok(()) => {},
        Err(e) => return Err(e),
    }
    match block(document, "ui", &mut tokens) {
        Ok(()) => {},
        Err(e) => return Err(e),
    }
    let ghost props = map_of(tokens.view_entries());
    let roles = role_entries(&tokens, palette, variant);
    let mut slots: Vec<(TokenPath, String)> = Vec::new();
    let mut i: usize = 0;
    while i < 16
        invariant
            i <= 16,
            slots@.map_values(|e: (TokenPath, String)| (e.0@, e.1@)) == ansi_pairs(*palette).take(i as int),
        decreases 16 - i,
    {
        let key = ansi_source(palette, i);
        let ghost before = slots@.map_values(|e: (TokenPath, String)| (e.0@, e.1@));
        slots.push((ansi(i), colors_ref_text(key.as_str())));
        proof {
            assert(slots@.map_values(|e: (TokenPath, String)| (e.0@, e.1@)) =~= before.push(ansi_pairs(*palette)[i as int]));
            assert(ansi_pairs(*palette).take(i + 1) =~= ansi_pairs(*palette).take(i as int).push(ansi_pairs(*palette)[i as int]));
        }
        i = i + 1;
    }
    proof {
        assert(ansi_pairs(*palette).take(16) =~= ansi_pairs(*palette));
        assert(Seq::<(Seq<char>, Seq<char>)>::empty().len() == 0);
    }
    let ghost empty: Seq<(Seq<char>, Seq<char>)> = Seq::empty();
    bind_entries(&mut tokens, slots, Ghost(props), Ghost(empty));
    let ghost after_ansi = empty + ansi_pairs(*palette);
    bind_entries(&mut tokens, roles, Ghost(props), Ghost(after_ansi));
    let ghost after_roles = after_ansi + role_pairs(props, *palette, variant);
    let author = match optional(scheme, "author") {
        Ok(author) => author,
        Err(source) => return Err(ConvertError::Invalid { source }),
    };
    let mut last: Vec<(TokenPath, String)> = Vec::new();
    match author {
        Some(text) => {
            last.push((known("meta.author"), text.to_owned()));
        },
        None => {},
    }
    let ghost author_view: Option<Seq<char>> = match author {
        Some(a) => Some(a@),
        None => None,
    };
    proof {
        assert(last@.map_values(|e: (TokenPath, String)| (e.0@, e.1@)) =~= author_pairs(author_view));
    }
    bind_entries(&mut tokens, last, Ghost(props), Ghost(after_roles));
    proof {
        assert(after_roles + author_pairs(author_view) =~= ansi_pairs(*palette) + role_pairs(props, *palette, variant) + author_pairs(author_view));
    }
    Ok(Converted::new(name, variant, tokens))
}

} // verus!
