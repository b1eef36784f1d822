//! Writing out a theme file and a target entry.
//!
//! A theme written here is flat: each token under the table of its namespace, `[meta]`
//! first and the other tables in name order, a key that is all digits ordered by its number
//! so `[ansi]` reads 0 to 15. Strings are quoted the way `toml_edit` quotes them.

use vstd::prelude::*;

use crate::config::TargetName;
use crate::path_map::{text_less, PathMap};
use crate::text::{chars_of, is_digit, push_str, string_of};
use crate::theme::{variant_text, Variant};
use crate::config::{entry_of, find_entry};
use crate::token::{split_dots, TokenPath};
use crate::toml::{parse_toml, toml_document, TomlSyntax, TomlTable, TomlValue};

verus! {

/// What `toml_edit` writes `text` as: a TOML string, quoted and escaped.
pub uninterp spec fn toml_quoted(text: Seq<char>) -> Seq<char>;

/// `text` as a TOML string: `toml_edit::Value::from` on it, its decoration cleared, then
/// displayed. The contract names the result, which depends on `text` alone.
#[verifier::external_body]
fn quoted(text: &str) -> (q: String)
    ensures
        q@ == toml_quoted(text@),
{
    toml_edit::Value::from(text).decorated("", "").to_string()
}

/// A token could not be added to a theme that already exists.
#[derive(Debug)]
pub enum EmitError {
    /// The theme already writes the key a token would be added under.
    Occupied {
        /// The token that could not be added.
        path: TokenPath,
    },
    /// A token sits under something that is not a table.
    Blocked {
        /// The token that could not be added.
        path: TokenPath,
        /// The key that is in the way.
        at: String,
    },
}

impl EmitError {
    /// What the error says.
    pub fn message(&self) -> (text: String)
        ensures
            text@ == emit_text(self@),
    {
        proof {
            reveal_strlit("the theme already writes `");
            reveal_strlit("`");
            reveal_strlit("` cannot be written: `");
            reveal_strlit("` is not a table");
        }
        let mut chars: Vec<char> = Vec::new();
        match self {
            EmitError::Occupied { path } => {
                push_str(&mut chars, "the theme already writes `");
                push_str(&mut chars, path.as_str());
                push_str(&mut chars, "`");
            },
            EmitError::Blocked { path, at } => {
                push_str(&mut chars, "`");
                push_str(&mut chars, path.as_str());
                push_str(&mut chars, "` cannot be written: `");
                push_str(&mut chars, at.as_str());
                push_str(&mut chars, "` is not a table");
            },
        }
        string_of(chars.as_slice())
    }
}

/// `source` with a `[[targets]]` entry appended.
pub open spec fn target_text(source: Seq<char>, name: Seq<char>, template: Seq<char>, output: Seq<char>) -> Seq<char> {
    let opening = if source.len() == 0 {
        source
    } else if source.last() == '\n' {
        source + "\n"@
    } else {
        source + "\n\n"@
    };
    opening + "[[targets]]\nname = "@ + toml_quoted(name) + "\ntemplate = "@ + toml_quoted(template)
        + "\noutput = "@ + toml_quoted(output) + "\n"@
}

/// `source`, a config file, with one more `[[targets]]` entry at the end of it.
///
/// The entry is appended as text. An array of tables goes last in a TOML file whatever else
/// the file holds, so nothing above it is re-encoded and nothing above it moves.
pub fn target(source: &str, name: &TargetName, template: &str, output: &str) -> (config: String)
    ensures
        config@ == target_text(source@, name@, template@, output@),
{
    proof {
        reveal_strlit("\n");
        reveal_strlit("\n\n");
        reveal_strlit("[[targets]]\nname = ");
        reveal_strlit("\ntemplate = ");
        reveal_strlit("\noutput = ");
    }
    let mut chars = chars_of(source);
    let n = chars.len();
    if n > 0 {
        if chars[n - 1] != '\n' {
            chars.push('\n');
        }
        chars.push('\n');
    }
    push_str(&mut chars, "[[targets]]\nname = ");
    push_str(&mut chars, quoted(name.as_str()).as_str());
    push_str(&mut chars, "\ntemplate = ");
    push_str(&mut chars, quoted(template).as_str());
    push_str(&mut chars, "\noutput = ");
    push_str(&mut chars, quoted(output).as_str());
    push_str(&mut chars, "\n");
    proof {
        assert(chars@ =~= target_text(source@, name@, template@, output@));
    }
    string_of(chars.as_slice())
}

/// One token as a line of a table: the table's name, the key and the value.
pub struct Line {
    pub table: Seq<char>,
    pub key: Seq<char>,
    pub value: Seq<char>,
}

/// Where the last `.` of `path` stands before `i`, or `-1`.
pub open spec fn last_dot(path: Seq<char>, i: int) -> int
    decreases i,
{
    if i <= 0 {
        -1
    } else if path[i - 1] == '.' {
        i - 1
    } else {
        last_dot(path, i - 1)
    }
}

/// A token as the line it is written as: everything before the last `.` names the table.
pub open spec fn line_of(path: Seq<char>, value: Seq<char>) -> Line {
    let dot = last_dot(path, path.len() as int);
    Line {
        table: if dot < 0 { Seq::empty() } else { path.take(dot) },
        key: path.skip(dot + 1),
        value,
    }
}

/// Every token of a map as its line, in path order.
pub open spec fn lines_of(entries: Seq<(Seq<char>, String)>) -> Seq<Line> {
    entries.map_values(|e: (Seq<char>, String)| line_of(e.0, e.1@))
}

/// The number decimal digits `s` write.
pub open spec fn digits_value(s: Seq<char>) -> nat
    decreases s.len(),
{
    if s.len() == 0 {
        0
    } else {
        digits_value(s.drop_last()) * 10 + (s.last() as nat - 48) as nat
    }
}

/// Whether `s` reads as a `u32`: digits only, and no larger than one.
pub open spec fn is_number(s: Seq<char>) -> bool {
    &&& s.len() > 0
    &&& forall|i: int| 0 <= i < s.len() ==> is_digit(#[trigger] s[i])
    &&& digits_value(s) <= u32::MAX
}

/// Whether key `a` is written before key `b`: by number when both are numbers, by text
/// otherwise.
pub open spec fn key_before(a: Seq<char>, b: Seq<char>) -> bool {
    if is_number(a) && is_number(b) {
        digits_value(a) < digits_value(b)
    } else {
        text_less(a, b)
    }
}

/// Whether table `a` is written before table `b`: `meta` first, then by name.
pub open spec fn table_before(a: Seq<char>, b: Seq<char>) -> bool {
    if a == "meta"@ {
        b != "meta"@
    } else {
        b != "meta"@ && text_less(a, b)
    }
}

/// Whether line `x` is written before line `y`.
pub open spec fn line_before(x: Line, y: Line) -> bool {
    table_before(x.table, y.table) || (x.table == y.table && key_before(x.key, y.key))
}

/// Whether no line of `lines` is written before the one ahead of it.
pub open spec fn in_order(lines: Seq<Line>) -> bool {
    forall|i: int| 0 < i < lines.len() ==> !line_before(#[trigger] lines[i], lines[i - 1])
}

/// `lines[i..]` as the body of a theme file, `previous` naming the table the line before
/// sits in.
pub open spec fn body_text(lines: Seq<Line>, i: int, previous: Option<Seq<char>>) -> Seq<char>
    decreases lines.len() - i,
{
    if i < 0 || i >= lines.len() {
        Seq::empty()
    } else {
        let line = lines[i];
        let header = if previous == Some(line.table) {
            Seq::empty()
        } else if line.table.len() == 0 {
            "\n"@
        } else {
            "\n["@ + line.table + "]\n"@
        };
        header + line.key + " = "@ + toml_quoted(line.value) + "\n"@ + body_text(lines, i + 1, Some(line.table))
    }
}

/// A theme file named `name`, for `variant`, holding `lines` in that order.
pub open spec fn theme_text(name: Seq<char>, variant: Variant, lines: Seq<Line>) -> Seq<char> {
    "[meta]\nformat = 1\nname = "@ + toml_quoted(name) + "\nvariant = "@ + toml_quoted(variant_text(variant))
        + "\n"@ + body_text(lines, 0, None)
}

/// A token split into its table and its key.
struct Split {
    table: Vec<char>,
    key: Vec<char>,
    value: String,
}

/// The line a split token is.
spec fn split_line(s: Split) -> Line {
    Line { table: s.table@, key: s.key@, value: s.value@ }
}

/// `path` bound to `value`, split at its last `.`.
fn split(path: &str, value: &String) -> (s: Split)
    ensures
        split_line(s) == line_of(path@, value@),
{
    let chars = chars_of(path);
    let n = chars.len();
    let mut i: usize = n;
    while i > 0 && chars[i - 1] != '.'
        invariant
            i <= n,
            n == chars@.len(),
            last_dot(chars@, n as int) == last_dot(chars@, i as int),
        decreases i,
    {
        i = i - 1;
    }
    let mut table: Vec<char> = Vec::new();
    let mut key: Vec<char> = Vec::new();
    let mut j: usize = 0;
    if i > 0 {
        while j < i - 1
            invariant
                i > 0,
                i <= n,
                n == chars@.len(),
                j <= i - 1,
                table@ == chars@.take(j as int),
            decreases i - 1 - j,
        {
            table.push(chars[j]);
            proof {
                assert(chars@.take(j + 1) =~= chars@.take(j as int).push(chars@[j as int]));
            }
            j = j + 1;
        }
    }
    let mut k: usize = i;
    while k < n
        invariant
            i <= k <= n,
            n == chars@.len(),
            key@ == chars@.subrange(i as int, k as int),
        decreases n - k,
    {
        key.push(chars[k]);
        proof {
            assert(chars@.subrange(i as int, k + 1) =~= chars@.subrange(i as int, k as int).push(chars@[k as int]));
        }
        k = k + 1;
    }
    proof {
        assert(key@ =~= chars@.skip(i as int));
        if i > 0 {
            assert(last_dot(chars@, i as int) == i - 1);
        } else {
            assert(last_dot(chars@, 0) == -1);
        }
    }
    Split { table, key, value: value.clone() }
}

/// Whether the characters of `s` read as a `u32`, and the number.
fn number(s: &Vec<char>) -> (found: Option<u32>)
    ensures
        found is Some <==> is_number(s@),
        found matches Some(v) ==> v == digits_value(s@),
{
    if s.len() == 0 {
        return None;
    }
    let mut value: u64 = 0;
    let mut i: usize = 0;
    while i < s.len()
        invariant
            i <= s@.len(),
            s@.len() > 0,
            value == digits_value(s@.take(i as int)),
            value <= u32::MAX,
            forall|j: int| 0 <= j < i ==> is_digit(#[trigger] s@[j]),
        decreases s@.len() - i,
    {
        let c = s[i];
        if !('0' <= c && c <= '9') {
            return None;
        }
        proof {
            assert(s@.take(i + 1).drop_last() =~= s@.take(i as int));
        }
        let next = value * 10 + ((c as u32) - 48) as u64;
        proof {
            assert(digits_value(s@.take(i + 1)) == next);
        }
        if next > 4294967295 {
            proof {
                if forall|j: int| 0 <= j < s@.len() ==> is_digit(#[trigger] s@[j]) {
                    lemma_digits_grow(s@, i as int + 1);
                }
            }
            return None;
        }
        value = next;
        i = i + 1;
    }
    proof {
        assert(s@.take(s@.len() as int) =~= s@);
    }
    Some(value as u32)
}

/// A number only grows as digits are added.
proof fn lemma_digits_grow(s: Seq<char>, k: int)
    requires
        0 <= k <= s.len(),
        forall|j: int| 0 <= j < s.len() ==> is_digit(#[trigger] s[j]),
    ensures
        digits_value(s.take(k)) <= digits_value(s),
    decreases s.len() - k,
{
    if k < s.len() {
        lemma_digits_grow(s, k + 1);
        assert(s.take(k + 1).drop_last() =~= s.take(k));
    } else {
        assert(s.take(k) =~= s);
    }
}

/// Whether `a` sorts before `b` character by character.
fn less(a: &Vec<char>, b: &Vec<char>) -> (before: bool)
    ensures
        before == text_less(a@, b@),
{
    crate::path_map::less_chars(a.as_slice(), b.as_slice())
}

/// Whether `s` is `meta`.
fn is_meta(s: &Vec<char>) -> (yes: bool)
    ensures
        yes == (s@ == "meta"@),
{
    proof {
        reveal_strlit("meta");
    }
    let meta = chars_of("meta");
    crate::text::same_chars(s.as_slice(), meta.as_slice())
}

/// Whether line `x` is written before line `y`.
fn before(x: &Split, y: &Split) -> (b: bool)
    ensures
        b == line_before(split_line(*x), split_line(*y)),
{
    let x_meta = is_meta(&x.table);
    let y_meta = is_meta(&y.table);
    let tables = if x_meta {
        !y_meta
    } else {
        !y_meta && less(&x.table, &y.table)
    };
    if tables {
        return true;
    }
    if !crate::text::same_chars(x.table.as_slice(), y.table.as_slice()) {
        return false;
    }
    match (number(&x.key), number(&y.key)) {
        (Some(a), Some(b)) => a < b,
        _ => less(&x.key, &y.key),
    }
}

/// No two lines are each written before the other.
proof fn lemma_line_asymmetric(x: Line, y: Line)
    ensures
        line_before(x, y) ==> !line_before(y, x),
{
    crate::path_map::lemma_less_irreflexive(x.table);
    crate::path_map::lemma_less_irreflexive(x.key);
    if text_less(x.table, y.table) && text_less(y.table, x.table) {
        crate::path_map::lemma_less_transitive(x.table, y.table, x.table);
    }
    if text_less(x.key, y.key) && text_less(y.key, x.key) {
        crate::path_map::lemma_less_transitive(x.key, y.key, x.key);
    }
}

/// The lines of `splits`.
spec fn split_lines(splits: Seq<Split>) -> Seq<Line> {
    splits.map_values(|s: Split| split_line(s))
}

/// The tokens of `tokens` as lines, each placed after every line not written after it.
fn ordered(tokens: &PathMap<String>) -> (lines: Vec<Split>)
    requires
        tokens.well_formed(),
    ensures
        split_lines(lines@).to_multiset() == lines_of(tokens.view_entries()).to_multiset(),
        in_order(split_lines(lines@)),
{
    let ghost all = lines_of(tokens.view_entries());
    let mut out: Vec<Split> = Vec::new();
    let mut i: usize = 0;
    proof {
        assert(all.take(0) =~= Seq::<Line>::empty());
        assert(split_lines(out@) =~= Seq::<Line>::empty());
    }
    while i < tokens.len()
        invariant
            i <= tokens.view_entries().len(),
            all == lines_of(tokens.view_entries()),
            split_lines(out@).to_multiset() == all.take(i as int).to_multiset(),
            in_order(split_lines(out@)),
        decreases tokens.view_entries().len() - i,
    {
        let entry = tokens.entry(i);
        let s = split(entry.0.as_str(), &entry.1);
        let ghost line = split_line(s);
        proof {
            assert(line == all[i as int]);
        }
        let mut at: usize = out.len();
        while at > 0
            invariant
                at <= out@.len(),
                line == split_line(s),
                forall|j: int| at <= j < out@.len() ==> line_before(line, #[trigger] split_line(out@[j])),
            ensures
                at <= out@.len(),
                forall|j: int| at <= j < out@.len() ==> line_before(line, #[trigger] split_line(out@[j])),
                at == 0 || !line_before(line, split_line(out@[at - 1])),
            decreases at,
        {
            if !before(&s, &out[at - 1]) {
                break;
            }
            at = at - 1;
        }
        let ghost previous = split_lines(out@);
        out.insert(at, s);
        proof {
            assert(split_lines(out@) =~= previous.insert(at as int, line));
            vstd::seq_lib::to_multiset_insert(previous, at as int, line);
            vstd::seq_lib::to_multiset_build(all.take(i as int), line);
            assert(all.take(i + 1) =~= all.take(i as int).push(line));
            let now = split_lines(out@);
            if at < previous.len() {
                lemma_line_asymmetric(line, previous[at as int]);
            }
            assert forall|k: int| 0 < k < now.len() implies !line_before(#[trigger] now[k], now[k - 1]) by {
                if k < at {
                    assert(now[k] == previous[k] && now[k - 1] == previous[k - 1]);
                } else if k == at {
                    assert(now[k] == line && now[k - 1] == previous[k - 1]);
                } else if k == at + 1 {
                    assert(now[k] == previous[at as int] && now[k - 1] == line);
                    assert(line_before(line, split_line(out@[k])));
                } else {
                    assert(now[k] == previous[k - 1] && now[k - 1] == previous[k - 2]);
                }
            }
        }
        i = i + 1;
    }
    proof {
        assert(all.take(tokens.view_entries().len() as int) =~= all);
    }
    out
}

/// A whole theme file named `name`, for `variant`, holding `tokens`.
///
/// Every token is written once, under the table of its namespace; `[meta]` opens the file.
pub fn theme(name: &str, variant: Variant, tokens: &PathMap<String>) -> (file: String)
    requires
        tokens.well_formed(),
    ensures
        exists|lines: Seq<Line>|
            lines.to_multiset() == lines_of(tokens.view_entries()).to_multiset() && in_order(lines)
                && file@ == theme_text(name@, variant, lines),
{
    proof {
        reveal_strlit("[meta]\nformat = 1\nname = ");
        reveal_strlit("\nvariant = ");
        reveal_strlit("\n");
        reveal_strlit("\n[");
        reveal_strlit("]\n");
        reveal_strlit(" = ");
    }
    let lines = ordered(tokens);
    let ghost views = split_lines(lines@);
    let mut chars: Vec<char> = Vec::new();
    push_str(&mut chars, "[meta]\nformat = 1\nname = ");
    push_str(&mut chars, quoted(name).as_str());
    push_str(&mut chars, "\nvariant = ");
    push_str(&mut chars, quoted(variant.as_str()).as_str());
    push_str(&mut chars, "\n");
    let ghost head = chars@;
    let mut i: usize = 0;
    while i < lines.len()
        invariant
            i <= lines@.len(),
            views == split_lines(lines@),
            chars@ + body_text(views, i as int, if i == 0 { None } else { Some(views[i - 1].table) })
                == head + body_text(views, 0, None),
        decreases lines@.len() - i,
    {
        let line = &lines[i];
        let ghost rest_before = body_text(views, i as int, if i == 0 { None } else { Some(views[i - 1].table) });
        let fresh = if i == 0 {
            true
        } else {
            !crate::text::same_chars(line.table.as_slice(), lines[i - 1].table.as_slice())
        };
        let ghost before_chars = chars@;
        if fresh {
            if line.table.len() == 0 {
                push_str(&mut chars, "\n");
            } else {
                push_str(&mut chars, "\n[");
                crate::text::push_all(&mut chars, line.table.as_slice());
                push_str(&mut chars, "]\n");
            }
        }
        crate::text::push_all(&mut chars, line.key.as_slice());
        push_str(&mut chars, " = ");
        push_str(&mut chars, quoted(line.value.as_str()).as_str());
        push_str(&mut chars, "\n");
        proof {
            assert(views[i as int] == split_line(*line));
            let rest = body_text(views, i + 1, Some(views[i as int].table));
            assert(rest_before == (chars@.subrange(before_chars.len() as int, chars@.len() as int)) + rest) by {
                assert(chars@.subrange(before_chars.len() as int, chars@.len() as int) =~= chars@.skip(before_chars.len() as int));
            }
            assert(before_chars + rest_before =~= chars@ + rest) by {
                assert(chars@ =~= before_chars + chars@.subrange(before_chars.len() as int, chars@.len() as int));
            }
        }
        i = i + 1;
    }
    proof {
        assert(chars@ + Seq::<char>::empty() =~= chars@);
        assert(chars@ =~= theme_text(name@, variant, views));
    }
    string_of(chars.as_slice())
}

/// The sentence an emit error is reported with.
pub open spec fn emit_text(e: EmitErrorView) -> Seq<char> {
    match e {
        EmitErrorView::Occupied(path) => "the theme already writes `"@ + path + "`"@,
        EmitErrorView::Blocked(path, at) => "`"@ + path + "` cannot be written: `"@ + at + "` is not a table"@,
    }
}

/// An emit error as plain values.
pub enum EmitErrorView {
    Occupied(Seq<char>),
    Blocked(Seq<char>, Seq<char>),
}

impl View for EmitError {
    type V = EmitErrorView;

    open spec fn view(&self) -> EmitErrorView {
        match self {
            EmitError::Occupied { path } => EmitErrorView::Occupied(path@),
            EmitError::Blocked { path, at } => EmitErrorView::Blocked(path@, at@),
        }
    }
}

/// What `toml_edit` writes `source` as once the value `value` is set at the key path
/// `segments`, the tables on the way opened where they are not written yet.
pub uninterp spec fn toml_with_value(source: Seq<char>, segments: Seq<Seq<char>>, value: Seq<char>) -> Seq<char>;

/// Sets `value` at `segments` in the document `source`: parses it as a
/// `toml_edit::DocumentMut`, takes each table on the way with `Table::entry` and
/// `Entry::or_insert_with` (a new `Table` where none is written) and `Item::as_table_mut`,
/// marks the last one explicit, inserts the value with `Table::insert`, and displays the
/// document. Where the text does not parse or a key on the way is not a table, the text comes
/// back as it was; the library calls it only where neither is so. The result is a function
/// of the three arguments and is named, not stated.
#[verifier::external_body]
fn insert_value(source: &str, segments: &Vec<String>, value: &str) -> (text: String)
    ensures
        text@ == toml_with_value(source@, segments@.map_values(|s: String| s@), value@),
{
    let Ok(mut document) = source.parse::<toml_edit::DocumentMut>() else { return source.to_owned() };
    let Some((leaf, tables)) = segments.split_last() else { return source.to_owned() };
    let mut table = document.as_table_mut();
    for segment in tables {
        let item = table.entry(segment).or_insert_with(|| toml_edit::Item::Table(toml_edit::Table::new()));
        let Some(next) = item.as_table_mut() else { return source.to_owned() };
        table = next;
    }
    table.set_implicit(false);
    table.insert(leaf, toml_edit::Item::Value(toml_edit::Value::from(value)));
    document.to_string()
}

/// What the document holds at the key path `segments`, walking through `[header]` tables:
/// `None` when a key on the way is not written or is not such a table.
pub open spec fn item_at(table: TomlTable, segments: Seq<Seq<char>>) -> Option<TomlValue>
    decreases segments.len(),
{
    if segments.len() == 0 {
        None
    } else {
        match entry_of(table.entries@, segments[0]) {
            None => None,
            Some(e) => if segments.len() == 1 {
                Some(e.value)
            } else {
                match e.value {
                    TomlValue::Table(t) => item_at(t, segments.drop_first()),
                    _ => None,
                }
            },
        }
    }
}

/// The key paths of the tokens added before the `i`th.
pub open spec fn added_before(entries: Seq<(Seq<char>, String)>, i: int) -> Seq<Seq<Seq<char>>> {
    entries.take(i).map_values(|e: (Seq<char>, String)| split_dots(e.0))
}

/// Whether the key path `prefix` cannot hold a table: the document writes something else
/// there, or an earlier token was set there as a value.
pub open spec fn blocked_at(doc: TomlTable, added: Seq<Seq<Seq<char>>>, prefix: Seq<Seq<char>>) -> bool {
    (item_at(doc, prefix) matches Some(v) && !(v is Table)) || added.contains(prefix)
}

/// The first table on the way to `segments`, from the `k`th on, that cannot be one.
pub open spec fn first_blocked(doc: TomlTable, added: Seq<Seq<Seq<char>>>, segments: Seq<Seq<char>>, k: int) -> Option<int>
    decreases segments.len() - k,
{
    if k < 0 || k + 1 >= segments.len() {
        None
    } else if blocked_at(doc, added, segments.take(k + 1)) {
        Some(k)
    } else {
        first_blocked(doc, added, segments, k + 1)
    }
}

/// Whether the key `segments` is taken: the document writes it, or an earlier token was set
/// there or under it.
pub open spec fn taken(doc: TomlTable, added: Seq<Seq<Seq<char>>>, segments: Seq<Seq<char>>) -> bool {
    item_at(doc, segments) is Some || exists|j: int|
        0 <= j < added.len() && (added[j] == segments || (added[j].len() > segments.len() && #[trigger] added[j].take(
            segments.len() as int,
        ) == segments))
}

/// Adding the tokens `entries[i..]`, in path order, to the document `doc` first written as
/// `text`: the text with every one set, or the first that cannot be.
pub open spec fn merge_from(doc: TomlTable, entries: Seq<(Seq<char>, String)>, i: int, text: Seq<char>) -> Result<
    Seq<char>,
    EmitErrorView,
>
    decreases entries.len() - i,
{
    if i < 0 || i >= entries.len() {
        Ok(text)
    } else {
        let segments = split_dots(entries[i].0);
        let added = added_before(entries, i);
        match first_blocked(doc, added, segments, 0) {
            Some(k) => Err(EmitErrorView::Blocked(entries[i].0, segments[k])),
            None => if taken(doc, added, segments) {
                Err(EmitErrorView::Occupied(entries[i].0))
            } else {
                merge_from(doc, entries, i + 1, toml_with_value(text, segments, entries[i].1@))
            },
        }
    }
}

/// `source`, a theme file, with the tokens `entries` added to it; a text that does not parse
/// is kept as it is.
pub open spec fn merged_spec(source: Seq<char>, entries: Seq<(Seq<char>, String)>) -> Result<Seq<char>, EmitErrorView> {
    match toml_document(source) {
        Err(_) => Ok(source),
        Ok(doc) => merge_from(doc, entries, 0, source),
    }
}

/// The value the document writes at `segments[from..n]`.
fn lookup_item<'a>(table: &'a TomlTable, segments: &Vec<String>, from: usize, n: usize) -> (found: Option<&'a TomlValue>)
    requires
        from < n <= segments@.len(),
    ensures
        match found {
            Some(v) => item_at(*table, segments@.map_values(|s: String| s@).subrange(from as int, n as int)) == Some(*v),
            None => item_at(*table, segments@.map_values(|s: String| s@).subrange(from as int, n as int)) is None,
        },
    decreases n - from,
{
    let ghost s = segments@.map_values(|x: String| x@).subrange(from as int, n as int);
    proof {
        assert(s[0] == segments@[from as int]@);
        assert(s.drop_first() =~= segments@.map_values(|x: String| x@).subrange(from + 1, n as int));
    }
    let i = match find_entry(&table.entries, segments[from].as_str()) {
        Some(i) => i,
        None => return None,
    };
    let entry = &table.entries[i];
    if from + 1 == n {
        return Some(&entry.value);
    }
    match &entry.value {
        TomlValue::Table(inner) => lookup_item(inner, segments, from + 1, n),
        _ => None,
    }
}

/// Whether `a` and `b` agree on their first `n` segments, `b` having that many.
fn agrees(a: &Vec<String>, b: &Vec<String>, n: usize) -> (same: bool)
    requires
        n <= a@.len(),
    ensures
        same == (b@.len() >= n && b@.map_values(|s: String| s@).take(n as int) == a@.map_values(|s: String| s@).take(
            n as int,
        )),
{
    let ghost av = a@.map_values(|s: String| s@);
    let ghost bv = b@.map_values(|s: String| s@);
    if b.len() < n {
        return false;
    }
    let mut k: usize = 0;
    while k < n
        invariant
            k <= n <= a@.len(),
            n <= b@.len(),
            av == a@.map_values(|s: String| s@),
            bv == b@.map_values(|s: String| s@),
            av.take(k as int) == bv.take(k as int),
        decreases n - k,
    {
        let x = chars_of(a[k].as_str());
        let y = chars_of(b[k].as_str());
        if !crate::text::same_chars(x.as_slice(), y.as_slice()) {
            proof {
                assert(av.take(n as int)[k as int] != bv.take(n as int)[k as int]);
            }
            return false;
        }
        proof {
            assert(av.take(k + 1) =~= av.take(k as int).push(av[k as int]));
            assert(bv.take(k + 1) =~= bv.take(k as int).push(bv[k as int]));
        }
        k = k + 1;
    }
    true
}

/// `source`, a theme file, with `tokens` added to it.
///
/// Everything already in the file keeps its formatting, its comments and its order, so a
/// second run adds lines to a theme somebody has been editing rather than rewriting it. A
/// token cannot be added where the file, or an earlier token, already writes its key, or
/// where something that is not a table sits on the way to it.
pub fn merged(source: &str, tokens: &PathMap<String>) -> (result: Result<String, EmitError>)
    requires
        tokens.well_formed(),
    ensures
        match (result, merged_spec(source@, tokens.view_entries())) {
            (Ok(text), Ok(expected)) => text@ == expected,
            (Err(e), Err(expected)) => e@ == expected,
            _ => false,
        },
{
    let doc = match parse_toml(source) {
        Ok(doc) => doc,
        Err(_) => return Ok(source.to_owned()),
    };
    let ghost entries = tokens.view_entries();
    let mut text = source.to_owned();
    let mut i: usize = 0;
    while i < tokens.len()
        invariant
            i <= entries.len(),
            entries == tokens.view_entries(),
            tokens.well_formed(),
            toml_document(source@) == Ok::<TomlTable, TomlSyntax>(doc),
            merged_spec(source@, entries) == merge_from(doc, entries, i as int, text@),
        decreases entries.len() - i,
    {
        let (path, value) = tokens.entry(i);
        let segments = path.segments();
        let ghost s = segments@.map_values(|x: String| x@);
        let ghost added = added_before(entries, i as int);
        proof {
            crate::token::lemma_split_dots_len(path@);
        }
        let n = segments.len();
        let mut k: usize = 0;
        while k + 1 < n
            invariant
                n == segments@.len() >= 1,
                k + 1 <= n,
                s == segments@.map_values(|x: String| x@),
                s == split_dots(entries[i as int].0),
                path@ == entries[i as int].0,
                toml_document(source@) == Ok::<TomlTable, TomlSyntax>(doc),
                merged_spec(source@, entries) == merge_from(doc, entries, i as int, text@),
                i < entries.len(),
                entries == tokens.view_entries(),
                added == added_before(entries, i as int),
                first_blocked(doc, added, s, 0) == first_blocked(doc, added, s, k as int),
            decreases n - k,
        {
            let item = lookup_item(&doc, &segments, 0, k + 1);
            let mut hit = match item {
                Some(TomlValue::Table(_)) => false,
                Some(_) => true,
                None => false,
            };
            proof {
                assert(s.subrange(0, k + 1) =~= s.take(k + 1));
            }
            let mut j: usize = 0;
            while j < i && !hit
                invariant
                    j <= i < entries.len(),
                    entries == tokens.view_entries(),
                    added == added_before(entries, i as int),
                    k + 1 < n,
                    n == segments@.len(),
                    s == segments@.map_values(|x: String| x@),
                    hit == ((item_at(doc, s.take(k + 1)) matches Some(v) && !(v is Table)) || exists|q: int|
                        0 <= q < j && added[q] == s.take(k + 1)),
                decreases i - j,
            {
                let earlier = tokens.entry(j).0.segments();
                proof {
                    assert(added[j as int] == earlier@.map_values(|x: String| x@));
                }
                if agrees(&segments, &earlier, k + 1) && earlier.len() == k + 1 {
                    proof {
                        assert(earlier@.map_values(|x: String| x@) =~= earlier@.map_values(|x: String| x@).take(k + 1));
                    }
                    hit = true;
                } else {
                    proof {
                        if added[j as int] == s.take(k + 1) {
                            assert(earlier@.map_values(|x: String| x@).take(k + 1) =~= added[j as int]);
                        }
                    }
                }
                j = j + 1;
            }
            proof {
                if !hit {
                    assert(!added.contains(s.take(k + 1)));
                } else if !(item_at(doc, s.take(k + 1)) matches Some(v) && !(v is Table)) {
                    let q = choose|q: int| 0 <= q < j && added[q] == s.take(k + 1);
                    assert(added[q] == s.take(k + 1));
                }
            }
            if hit {
                let error = EmitError::Blocked { path: path.clone(), at: segments[k].as_str().to_owned() };
                proof {
                    assert(blocked_at(doc, added, s.take(k + 1)));
                    assert(first_blocked(doc, added, s, k as int) == Some(k as int));
                    assert(error@ == EmitErrorView::Blocked(entries[i as int].0, s[k as int]));
                }
                return Err(error);
            }
            k = k + 1;
        }
        let whole = lookup_item(&doc, &segments, 0, n);
        proof {
            assert(s.subrange(0, n as int) =~= s);
        }
        let mut occupied = whole.is_some();
        let mut j: usize = 0;
        while j < i && !occupied
            invariant
                j <= i < entries.len(),
                entries == tokens.view_entries(),
                added == added_before(entries, i as int),
                n == segments@.len(),
                s == segments@.map_values(|x: String| x@),
                occupied == (item_at(doc, s) is Some || exists|q: int|
                    0 <= q < j && (added[q] == s || (added[q].len() > s.len() && #[trigger] added[q].take(s.len() as int) == s))),
            decreases i - j,
        {
            let earlier = tokens.entry(j).0.segments();
            proof {
                assert(added[j as int] == earlier@.map_values(|x: String| x@));
            }
            if agrees(&segments, &earlier, n) {
                proof {
                    let e = earlier@.map_values(|x: String| x@);
                    assert(s.take(n as int) =~= s);
                    if e.len() == n {
                        assert(e =~= e.take(n as int));
                    } else {
                        assert(e.take(s.len() as int) == s);
                    }
                }
                occupied = true;
            } else {
                proof {
                    let e = earlier@.map_values(|x: String| x@);
                    assert(s.take(n as int) =~= s);
                    if e == s {
                        assert(e.take(n as int) =~= e);
                    }
                }
            }
            j = j + 1;
        }
        proof {
            if occupied && item_at(doc, s) is None {
                let q = choose|q: int| 0 <= q < j && (added[q] == s || (added[q].len() > s.len() && #[trigger] added[q].take(s.len() as int) == s));
                assert(added[q].take(s.len() as int) == s || added[q] == s);
            }
        }
        if occupied {
            return Err(EmitError::Occupied { path: path.clone() });
        }
        let next = insert_value(text.as_str(), &segments, value.as_str());
        text = next;
        i = i + 1;
    }
    Ok(text)
}

} // verus!
