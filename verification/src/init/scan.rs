//! Finding colours in a config file somebody already wrote.
//!
//! Lowercase `#rrggbb` is the only notation substituted. The other notations a colour can be
//! written in are reported rather than passed over in silence.
//!
//! Positions are counted in characters. Every notation is ASCII, so a character that is not
//! ASCII never starts or continues one, and never counts as part of a word around one.

use vstd::prelude::*;

use crate::text::{chars_of, decimal, decimal_chars, is_digit, push_all, push_str, same_chars, starts_with, starts_with_at, string_of};
use crate::theme::is_hex_char;

verus! {

/// One place a colour appears in the source.
#[derive(Debug)]
pub struct Occurrence {
    line: usize,
    start: usize,
    end: usize,
}

impl Occurrence {
    /// The 1-based line it is written on.
    pub fn line(&self) -> (line: usize)
        ensures
            line == self.line_spec(),
    {
        self.line
    }

    /// The line, as contracts read it.
    pub closed spec fn line_spec(&self) -> usize {
        self.line
    }

    /// Where it starts, as contracts read it.
    pub closed spec fn start_spec(&self) -> usize {
        self.start
    }

    /// Where it ends, as contracts read it.
    pub closed spec fn end_spec(&self) -> usize {
        self.end
    }

    /// The characters it covers, as a start and an end.
    pub fn range(&self) -> (range: (usize, usize))
        ensures
            range.0 == self.start_spec(),
            range.1 == self.end_spec(),
    {
        (self.start, self.end)
    }

    /// The whole line it is written on, with surrounding white space trimmed.
    pub fn context(&self, source: &str) -> (line: String)
        ensures
            line@ == context_spec(source@, self.start_spec() as int, self.end_spec() as int),
    {
        let chars = chars_of(source);
        let n = chars.len();
        let mut start: usize = if self.start <= n { self.start } else { n };
        while start > 0 && chars[start - 1] != '\n'
            invariant
                start <= n,
                n == chars@.len(),
                line_start(chars@, start as int) == line_start(chars@, clip(self.start as int, n as int)),
            decreases start,
        {
            start = start - 1;
        }
        let mut end: usize = if self.end <= n { self.end } else { n };
        while end < n && chars[end] != '\n'
            invariant
                end <= n,
                n == chars@.len(),
                line_end(chars@, end as int) == line_end(chars@, clip(self.end as int, n as int)),
            decreases n - end,
        {
            end = end + 1;
        }
        let mut lo = start;
        let mut hi = if end >= start { end } else { start };
        while lo < hi && crate::init::answer::is_space_char(chars[lo])
            invariant
                start <= lo <= hi <= n,
                n == chars@.len(),
                trim_from(chars@, lo as int, hi as int) == trim_from(chars@, start as int, if end >= start { end as int } else { start as int }),
            decreases hi - lo,
        {
            lo = lo + 1;
        }
        while hi > lo && crate::init::answer::is_space_char(chars[hi - 1])
            invariant
                start <= lo <= hi <= n,
                lo < hi ==> !crate::init::answer::is_space(chars@[lo as int]),
                n == chars@.len(),
                trim_from(chars@, lo as int, hi as int) == trim_from(chars@, start as int, if end >= start { end as int } else { start as int }),
            decreases hi - lo,
        {
            hi = hi - 1;
        }
        let mut out: Vec<char> = Vec::new();
        let mut k = lo;
        while k < hi
            invariant
                lo <= k <= hi <= n,
                n == chars@.len(),
                out@ == chars@.subrange(lo as int, k as int),
            decreases hi - k,
        {
            out.push(chars[k]);
            proof {
                assert(chars@.subrange(lo as int, k + 1) =~= chars@.subrange(lo as int, k as int).push(chars@[k as int]));
            }
            k = k + 1;
        }
        proof {
            assert(trim_from(chars@, lo as int, hi as int) == chars@.subrange(lo as int, hi as int));
        }
        string_of(out.as_slice())
    }
}

/// `at`, kept inside `0..=n`.
pub open spec fn clip(at: int, n: int) -> int {
    if at < 0 {
        0
    } else if at > n {
        n
    } else {
        at
    }
}

/// Where the line holding position `at` starts.
pub open spec fn line_start(s: Seq<char>, at: int) -> int
    decreases at,
{
    if at <= 0 || at > s.len() {
        0
    } else if s[at - 1] == '\n' {
        at
    } else {
        line_start(s, at - 1)
    }
}

/// Where the line holding position `at` ends.
pub open spec fn line_end(s: Seq<char>, at: int) -> int
    decreases s.len() - at,
{
    if at < 0 || at >= s.len() {
        s.len() as int
    } else if s[at] == '\n' {
        at
    } else {
        line_end(s, at + 1)
    }
}

/// `s[lo..hi]` with white space trimmed from both ends.
pub open spec fn trim_from(s: Seq<char>, lo: int, hi: int) -> Seq<char>
    decreases hi - lo,
{
    if lo >= hi || lo < 0 || hi > s.len() {
        Seq::empty()
    } else if crate::init::answer::is_space(s[lo]) {
        trim_from(s, lo + 1, hi)
    } else if crate::init::answer::is_space(s[hi - 1]) {
        trim_from(s, lo, hi - 1)
    } else {
        s.subrange(lo, hi)
    }
}

/// The line a span `start..end` of `s` sits on, trimmed.
pub open spec fn context_spec(s: Seq<char>, start: int, end: int) -> Seq<char> {
    let lo = line_start(s, clip(start, s.len() as int));
    let hi = line_end(s, clip(end, s.len() as int));
    trim_from(s, lo, if hi >= lo { hi } else { lo })
}

/// Whether `c` is one a name can be spelled with.
pub open spec fn is_word(c: char) -> bool {
    ('a' <= c && c <= 'z') || ('A' <= c && c <= 'Z') || ('0' <= c && c <= '9') || c == '_'
}

/// `c` in lowercase, when it is an ASCII capital.
pub open spec fn lower_ascii(c: char) -> char {
    if 'A' <= c && c <= 'Z' {
        ((c as u32) + 32) as char
    } else {
        c
    }
}

/// How many hex digits run from `from`.
pub open spec fn hex_run(s: Seq<char>, from: int) -> nat
    decreases s.len() - from,
{
    if 0 <= from < s.len() && is_hex_char(s[from]) {
        1 + hex_run(s, from + 1)
    } else {
        0
    }
}

/// How many decimal digits run from `from`.
pub open spec fn digit_run(s: Seq<char>, from: int) -> nat
    decreases s.len() - from,
{
    if 0 <= from < s.len() && is_digit(s[from]) {
        1 + digit_run(s, from + 1)
    } else {
        0
    }
}

/// How many digits and `;` run from `from`.
pub open spec fn param_run(s: Seq<char>, from: int) -> nat
    decreases s.len() - from,
{
    if 0 <= from < s.len() && (is_digit(s[from]) || s[from] == ';') {
        1 + param_run(s, from + 1)
    } else {
        0
    }
}

/// Whether the character before `at` lets a notation start there.
pub open spec fn opens(s: Seq<char>, at: int) -> bool {
    at == 0 || !is_word(s[at - 1])
}

/// Whether the character at `at` lets a notation end there.
pub open spec fn closes(s: Seq<char>, at: int) -> bool {
    at >= s.len() || !is_word(s[at])
}

/// Whether `s` holds `prefix` at `at`, ignoring ASCII case.
pub open spec fn opening(s: Seq<char>, at: int, prefix: Seq<char>) -> bool {
    at + prefix.len() <= s.len() && forall|k: int|
        0 <= k < prefix.len() ==> lower_ascii(#[trigger] s[at + k]) == lower_ascii(prefix[k])
}

/// Whether `s` holds `prefix` exactly at `at`.
pub open spec fn holds_at(s: Seq<char>, at: int, prefix: Seq<char>) -> bool {
    starts_with(s.skip(at), prefix)
}

/// The number the digits `d` spell.
pub open spec fn number(d: Seq<char>) -> nat
    decreases d.len(),
{
    if d.len() == 0 {
        0
    } else {
        number(d.drop_last()) * 10 + ((d.last() as u32) - 48) as nat
    }
}

/// Where the first `c` at or after `from` is, when there is one.
pub open spec fn find_from(s: Seq<char>, from: int, c: char) -> Option<int>
    decreases s.len() - from,
{
    if from < 0 || from >= s.len() {
        None
    } else if s[from] == c {
        Some(from)
    } else {
        find_from(s, from + 1, c)
    }
}

/// Whether `s[from..to]` holds no newline.
pub open spec fn one_line(s: Seq<char>, from: int, to: int) -> bool {
    forall|k: int| from <= k < to ==> #[trigger] s[k] != '\n'
}

/// What starts at one position.
pub enum FoundView {
    /// A lowercase `#rrggbb` literal ending at `end`.
    Colour { end: int },
    /// A notation that cannot be substituted, ending at `end`.
    Unhandled { end: int, why: Seq<char> },
}

/// The first of `prefixes` that `s` holds at `at`, ignoring case.
pub open spec fn first_opening(s: Seq<char>, at: int, prefixes: Seq<Seq<char>>) -> Option<Seq<char>>
    decreases prefixes.len(),
{
    if prefixes.len() == 0 {
        None
    } else if opening(s, at, prefixes[0]) {
        Some(prefixes[0])
    } else {
        first_opening(s, at, prefixes.drop_first())
    }
}

/// The first of `prefixes` that `s` holds exactly at `at`.
pub open spec fn first_held(s: Seq<char>, at: int, prefixes: Seq<Seq<char>>) -> Option<Seq<char>>
    decreases prefixes.len(),
{
    if prefixes.len() == 0 {
        None
    } else if holds_at(s, at, prefixes[0]) {
        Some(prefixes[0])
    } else {
        first_held(s, at, prefixes.drop_first())
    }
}

/// The function notations.
pub open spec fn functions() -> Seq<Seq<char>> {
    seq!["rgb("@, "rgba("@, "hsl("@, "hsla("@]
}

/// The two spellings of an indexed colour.
pub open spec fn indexed_words() -> Seq<Seq<char>> {
    seq!["colour"@, "color"@]
}

/// The spellings an escape sequence opens with.
pub open spec fn escapes() -> Seq<Seq<char>> {
    seq!["\\033["@, "\\e["@, "\\x1b["@, "\\x1B["@, "\u{1b}["@]
}

/// The bare colour selectors.
pub open spec fn selectors() -> Seq<Seq<char>> {
    seq!["38;5;"@, "48;5;"@, "38;2;"@, "48;2;"@]
}

/// The colour words a quoted value may be made of.
pub open spec fn colour_names() -> Seq<Seq<char>> {
    seq!["black"@, "red"@, "green"@, "yellow"@, "blue"@, "magenta"@, "cyan"@, "white"@]
}

/// The style words that may sit beside a colour word.
pub open spec fn style_names() -> Seq<Seq<char>> {
    seq!["bold"@, "dim"@, "italic"@, "underline"@, "reverse"@, "blink"@, "bright"@, "light"@, "default"@, "none"@]
}

/// The value of one SGR field, when it reads as a number below 65536.
pub open spec fn field_value(f: Seq<char>) -> Option<nat> {
    if f.len() > 0 && (forall|k: int| 0 <= k < f.len() ==> #[trigger] is_digit(f[k])) && number(f) < 65536 {
        Some(number(f))
    } else {
        None
    }
}

/// Whether an SGR parameter sets a colour by itself.
pub open spec fn colour_parameter(p: nat) -> bool {
    (30 <= p <= 37) || (39 <= p <= 47) || p == 49 || (90 <= p <= 97) || (100 <= p <= 107)
}

/// Whether the SGR fields from `k` on set a colour.
pub open spec fn colouring_from(fields: Seq<Seq<char>>, k: int) -> bool
    decreases fields.len() + 1 - k,
{
    if k < 0 || k >= fields.len() {
        false
    } else {
        match field_value(fields[k]) {
            None => colouring_from(fields, k + 1),
            Some(p) => if colour_parameter(p) {
                true
            } else if p == 38 || p == 48 {
                if k + 1 < fields.len() && (fields[k + 1] == "5"@ || fields[k + 1] == "2"@) {
                    true
                } else {
                    colouring_from(fields, k + 2)
                }
            } else {
                colouring_from(fields, k + 1)
            },
        }
    }
}

/// Whether SGR parameters set a colour, rather than resetting or setting an attribute.
pub open spec fn colouring(params: Seq<char>) -> bool {
    colouring_from(crate::text::split_on(params, ';'), 0)
}

/// `w` lowercased.
pub open spec fn lower_word(w: Seq<char>) -> Seq<char> {
    w.map_values(|c: char| lower_ascii(c))
}

/// Whether `c` separates words of a quoted colour.
pub open spec fn name_gap(c: char) -> bool {
    c == ' ' || c == '\t' || c == '-'
}

/// The words of a quoted value: its runs between spaces, tabs and hyphens.
pub open spec fn name_words(s: Seq<char>) -> Seq<Seq<char>>
    decreases s.len(),
{
    if s.len() == 0 {
        Seq::empty()
    } else {
        let before = name_words(s.drop_last());
        let c = s.last();
        if name_gap(c) {
            before
        } else if s.len() >= 2 && !name_gap(s[s.len() - 2]) {
            before.update(before.len() - 1, before.last().push(c))
        } else {
            before.push(seq![c])
        }
    }
}

/// Whether the quoted text `t` names a colour and nothing else.
pub open spec fn names_colour(t: Seq<char>) -> bool {
    let ws = name_words(t);
    &&& forall|i: int| 0 <= i < ws.len() ==> colour_names().contains(lower_word(#[trigger] ws[i]))
        || style_names().contains(lower_word(ws[i]))
    &&& exists|i: int| 0 <= i < ws.len() && colour_names().contains(lower_word(#[trigger] ws[i]))
}

/// Whatever starts at `at`, or `None` when nothing does.
pub open spec fn found_spec(s: Seq<char>, at: int) -> Option<FoundView> {
    if at < 0 || at >= s.len() {
        None
    } else {
        let c = s[at];
        if c == '#' {
            let n = hex_run(s, at + 1);
            if !closes(s, at + 1 + n) {
                None
            } else if n == 6 {
                if exists|k: int| at + 1 <= k < at + 7 && 'A' <= #[trigger] s[k] && s[k] <= 'Z' {
                    Some(FoundView::Unhandled { end: at + 7, why: "uppercase hex"@ })
                } else {
                    Some(FoundView::Colour { end: at + 7 })
                }
            } else if n == 3 {
                Some(FoundView::Unhandled { end: at + 4, why: "three-digit hex"@ })
            } else if n == 8 {
                Some(FoundView::Unhandled { end: at + 9, why: "eight-digit hex"@ })
            } else {
                None
            }
        } else if c == '0' && opens(s, at) {
            if at + 1 < s.len() && (s[at + 1] == 'x' || s[at + 1] == 'X') {
                let n = hex_run(s, at + 2);
                if closes(s, at + 2 + n) && (n == 6 || n == 8) {
                    Some(FoundView::Unhandled { end: at + 2 + n, why: "0x literal"@ })
                } else {
                    None
                }
            } else {
                None
            }
        } else if (c == 'r' || c == 'R' || c == 'h' || c == 'H') && opens(s, at) {
            match first_opening(s, at, functions()) {
                None => None,
                Some(open) => match find_from(s, at + open.len(), ')') {
                    None => None,
                    Some(close) => if one_line(s, at + open.len(), close) {
                        Some(FoundView::Unhandled { end: close + 1, why: "function notation"@ })
                    } else {
                        None
                    },
                },
            }
        } else if (c == 'c' || c == 'C') && opens(s, at) {
            match first_opening(s, at, indexed_words()) {
                None => None,
                Some(word) => {
                    let from = at + word.len();
                    let m = digit_run(s, from);
                    if 1 <= m <= 3 && number(s.subrange(from, from + m)) < 256 && closes(s, from + m) {
                        Some(FoundView::Unhandled { end: from + m, why: "indexed colour"@ })
                    } else {
                        None
                    }
                },
            }
        } else if c == '\\' || c == '\u{1b}' {
            match first_held(s, at, escapes()) {
                None => None,
                Some(open) => {
                    let from = at + open.len();
                    let count = param_run(s, from);
                    if colouring(s.subrange(from, from + count)) {
                        let end = from + count + if from + count < s.len() && s[from + count] == 'm' {
                            1int
                        } else {
                            0int
                        };
                        Some(FoundView::Unhandled { end, why: "ANSI colour"@ })
                    } else {
                        None
                    }
                },
            }
        } else if (c == '3' || c == '4') && opens(s, at) {
            match first_held(s, at, selectors()) {
                None => None,
                Some(_) => Some(FoundView::Unhandled { end: at + param_run(s, at), why: "ANSI colour"@ }),
            }
        } else if c == '"' || c == '\'' {
            match find_from(s, at + 1, c) {
                None => None,
                Some(close) => if one_line(s, at + 1, close) && names_colour(s.subrange(at + 1, close)) {
                    Some(FoundView::Unhandled { end: close + 1, why: "colour name"@ })
                } else {
                    None
                },
            }
        } else {
            None
        }
    }
}

/// Whether `c` is one a name can be spelled with.
fn word_char(c: char) -> (word: bool)
    ensures
        word == is_word(c),
{
    ('a' <= c && c <= 'z') || ('A' <= c && c <= 'Z') || ('0' <= c && c <= '9') || c == '_'
}

/// `c` in lowercase, when it is an ASCII capital.
fn lower(c: char) -> (l: char)
    ensures
        l == lower_ascii(c),
{
    if 'A' <= c && c <= 'Z' {
        let code = ((c as u32) + 32) as u8;
        code as char
    } else {
        c
    }
}

/// Whether `c` is a hex digit.
fn hex_digit(c: char) -> (hex: bool)
    ensures
        hex == is_hex_char(c),
{
    ('0' <= c && c <= '9') || ('a' <= c && c <= 'f') || ('A' <= c && c <= 'F')
}

/// How many hex digits run from `from`.
fn count_hex(chars: &[char], from: usize) -> (n: usize)
    ensures
        n == hex_run(chars@, from as int),
        from + n <= chars@.len() || n == 0,
{
    let mut k: usize = from;
    while k < chars.len() && hex_digit(chars[k])
        invariant
            from <= k,
            k <= chars@.len() || k == from,
            hex_run(chars@, from as int) == (k - from) + hex_run(chars@, k as int),
        decreases chars@.len() - k,
    {
        k = k + 1;
    }
    k - from
}

/// How many decimal digits run from `from`.
fn count_digits(chars: &[char], from: usize) -> (n: usize)
    ensures
        n == digit_run(chars@, from as int),
        from + n <= chars@.len() || n == 0,
{
    let mut k: usize = from;
    while k < chars.len() && '0' <= chars[k] && chars[k] <= '9'
        invariant
            from <= k,
            k <= chars@.len() || k == from,
            digit_run(chars@, from as int) == (k - from) + digit_run(chars@, k as int),
        decreases chars@.len() - k,
    {
        k = k + 1;
    }
    k - from
}

/// How many digits and `;` run from `from`.
fn count_params(chars: &[char], from: usize) -> (n: usize)
    ensures
        n == param_run(chars@, from as int),
        from + n <= chars@.len() || n == 0,
{
    let mut k: usize = from;
    while k < chars.len() && (('0' <= chars[k] && chars[k] <= '9') || chars[k] == ';')
        invariant
            from <= k,
            k <= chars@.len() || k == from,
            param_run(chars@, from as int) == (k - from) + param_run(chars@, k as int),
        decreases chars@.len() - k,
    {
        k = k + 1;
    }
    k - from
}

/// Whether the character before `at` lets a notation start there.
fn opens_at(chars: &[char], at: usize) -> (open: bool)
    requires
        at <= chars@.len(),
    ensures
        open == opens(chars@, at as int),
{
    at == 0 || !word_char(chars[at - 1])
}

/// Whether the character at `at` lets a notation end there.
fn closes_at(chars: &[char], at: usize) -> (close: bool)
    ensures
        close == closes(chars@, at as int),
{
    at >= chars.len() || !word_char(chars[at])
}

/// Whether `chars` holds `prefix` at `at`, ignoring ASCII case.
fn opening_at(chars: &[char], at: usize, prefix: &[char]) -> (found: bool)
    ensures
        found == opening(chars@, at as int, prefix@),
{
    if at > chars.len() || prefix.len() > chars.len() - at {
        return false;
    }
    let mut k: usize = 0;
    while k < prefix.len()
        invariant
            k <= prefix@.len(),
            at + prefix@.len() <= chars@.len(),
            chars@.len() <= usize::MAX,
            forall|j: int| 0 <= j < k ==> lower_ascii(#[trigger] chars@[at + j]) == lower_ascii(prefix@[j]),
        decreases prefix@.len() - k,
    {
        if lower(chars[at + k]) != lower(prefix[k]) {
            assert(lower_ascii(chars@[at + k as int]) != lower_ascii(prefix@[k as int]));
            return false;
        }
        k = k + 1;
    }
    true
}

/// The prefixes as plain values.
pub open spec fn prefix_views(prefixes: Seq<Vec<char>>) -> Seq<Seq<char>> {
    prefixes.map_values(|p: Vec<char>| p@)
}

/// The first of `prefixes` that `chars` holds at `at`, ignoring case.
fn first_opening_at(chars: &[char], at: usize, prefixes: &Vec<Vec<char>>) -> (found: Option<usize>)
    ensures
        match found {
            Some(i) => i < prefixes@.len() && first_opening(chars@, at as int, prefix_views(prefixes@))
                == Some(prefixes@[i as int]@),
            None => first_opening(chars@, at as int, prefix_views(prefixes@)) is None,
        },
{
    let ghost all = prefix_views(prefixes@);
    let mut i: usize = 0;
    proof {
        assert(all.skip(0) =~= all);
    }
    while i < prefixes.len()
        invariant
            i <= prefixes@.len(),
            all == prefix_views(prefixes@),
            first_opening(chars@, at as int, all) == first_opening(chars@, at as int, all.skip(i as int)),
        decreases prefixes@.len() - i,
    {
        proof {
            assert(all.skip(i as int)[0] == prefixes@[i as int]@);
            assert(all.skip(i as int).drop_first() =~= all.skip(i + 1));
        }
        if opening_at(chars, at, prefixes[i].as_slice()) {
            return Some(i);
        }
        i = i + 1;
    }
    proof {
        assert(all.skip(i as int) =~= Seq::<Seq<char>>::empty());
    }
    None
}

/// The first of `prefixes` that `chars` holds exactly at `at`.
fn first_held_at(chars: &[char], at: usize, prefixes: &Vec<Vec<char>>) -> (found: Option<usize>)
    requires
        at <= chars@.len(),
    ensures
        match found {
            Some(i) => i < prefixes@.len() && first_held(chars@, at as int, prefix_views(prefixes@))
                == Some(prefixes@[i as int]@),
            None => first_held(chars@, at as int, prefix_views(prefixes@)) is None,
        },
{
    let ghost all = prefix_views(prefixes@);
    let mut i: usize = 0;
    proof {
        assert(all.skip(0) =~= all);
    }
    while i < prefixes.len()
        invariant
            i <= prefixes@.len(),
            at <= chars@.len(),
            all == prefix_views(prefixes@),
            first_held(chars@, at as int, all) == first_held(chars@, at as int, all.skip(i as int)),
        decreases prefixes@.len() - i,
    {
        proof {
            assert(all.skip(i as int)[0] == prefixes@[i as int]@);
            assert(all.skip(i as int).drop_first() =~= all.skip(i + 1));
        }
        if starts_with_at(chars, at, prefixes[i].as_slice()) {
            return Some(i);
        }
        i = i + 1;
    }
    proof {
        assert(all.skip(i as int) =~= Seq::<Seq<char>>::empty());
    }
    None
}

/// Where the first `c` at or after `from` is.
fn find_char(chars: &[char], from: usize, c: char) -> (found: Option<usize>)
    ensures
        match found {
            Some(i) => find_from(chars@, from as int, c) == Some(i as int) && i < chars@.len(),
            None => find_from(chars@, from as int, c) is None,
        },
{
    let mut k = from;
    while k < chars.len()
        invariant
            from <= k,
            find_from(chars@, from as int, c) == find_from(chars@, k as int, c),
        decreases chars@.len() - k,
    {
        if chars[k] == c {
            return Some(k);
        }
        k = k + 1;
    }
    None
}

/// Whether `chars[from..to]` holds no newline.
fn no_newline(chars: &[char], from: usize, to: usize) -> (clear: bool)
    requires
        to <= chars@.len(),
    ensures
        clear == one_line(chars@, from as int, to as int),
{
    let mut k = from;
    while k < to
        invariant
            from <= k,
            to <= chars@.len(),
            forall|j: int| from <= j < k ==> #[trigger] chars@[j] != '\n',
        decreases to - k,
    {
        if chars[k] == '\n' {
            return false;
        }
        k = k + 1;
    }
    true
}

/// Adding a digit keeps a number at least as large.
proof fn lemma_number_push(d: Seq<char>, c: char)
    ensures
        number(d.push(c)) == number(d) * 10 + ((c as u32) - 48) as nat,
{
    assert(d.push(c).drop_last() =~= d);
}

/// The value of one SGR field, when it reads as a number below 65536.
fn field_number(f: &[char]) -> (value: Option<u32>)
    ensures
        match value {
            Some(v) => field_value(f@) == Some(v as nat),
            None => field_value(f@) is None,
        },
{
    if f.len() == 0 {
        return None;
    }
    let mut value: u32 = 0;
    let mut big = false;
    let mut k: usize = 0;
    proof {
        assert(f@.take(0) =~= Seq::<char>::empty());
    }
    while k < f.len()
        invariant
            k <= f@.len(),
            forall|j: int| 0 <= j < k ==> #[trigger] is_digit(f@[j]),
            !big ==> value as nat == number(f@.take(k as int)) && value < 65536,
            big ==> number(f@.take(k as int)) >= 65536,
        decreases f@.len() - k,
    {
        let c = f[k];
        if !('0' <= c && c <= '9') {
            proof {
                assert(!is_digit(f@[k as int]));
            }
            return None;
        }
        proof {
            lemma_number_push(f@.take(k as int), c);
            assert(f@.take(k + 1) =~= f@.take(k as int).push(c));
        }
        if !big {
            let next: u32 = value * 10 + ((c as u32) - 48);
            if next >= 65536 {
                big = true;
            } else {
                value = next;
            }
        }
        k = k + 1;
    }
    proof {
        assert(f@.take(f@.len() as int) =~= f@);
    }
    if big {
        None
    } else {
        Some(value)
    }
}

/// Whether SGR parameters set a colour, rather than resetting or setting an attribute.
fn sets_colour(params: &[char]) -> (colours: bool)
    ensures
        colours == colouring(params@),
{
    let fields = crate::text::split_chars(params, ';');
    let ghost fs = fields@.map_values(|p: Vec<char>| p@);
    proof {
        reveal_strlit("5");
        reveal_strlit("2");
    }
    let mut k: usize = 0;
    while k < fields.len()
        invariant
            fs == fields@.map_values(|p: Vec<char>| p@),
            fs == crate::text::split_on(params@, ';'),
            colouring_from(fs, 0) == colouring_from(fs, k as int),
        decreases fields@.len() + 1 - k,
    {
        proof {
            assert(fs[k as int] == fields@[k as int]@);
        }
        match field_number(fields[k].as_slice()) {
            None => {
                k = k + 1;
            },
            Some(p) => {
                if (30 <= p && p <= 37) || (39 <= p && p <= 47) || p == 49 || (90 <= p && p <= 97) || (100 <= p && p <= 107) {
                    return true;
                }
                if p == 38 || p == 48 {
                    if k + 1 < fields.len() {
                        let next = &fields[k + 1];
                        proof {
                            assert(fs[k + 1] == next@);
                        }
                        if next.len() == 1 && (next[0] == '5' || next[0] == '2') {
                            proof {
                                reveal_strlit("5");
                                reveal_strlit("2");
                                if next[0] == '5' {
                                    assert(next@ =~= "5"@);
                                } else {
                                    assert(next@ =~= "2"@);
                                }
                            }
                            return true;
                        }
                        proof {
                            reveal_strlit("5");
                            reveal_strlit("2");
                            if next@ == "5"@ || next@ == "2"@ {
                                assert(next@.len() == 1);
                            }
                        }
                    }
                    proof {
                        assert(colouring_from(fs, k as int) == colouring_from(fs, k + 2));
                        assert(!colouring_from(fs, fs.len() + 1int));
                        assert(!colouring_from(fs, fs.len() as int));
                    }
                    k = k + 1;
                    if k < fields.len() {
                        k = k + 1;
                    }
                } else {
                    k = k + 1;
                }
            },
        }
    }
    false
}

/// The words of a quoted value.
fn quoted_words(chars: &[char]) -> (words: Vec<Vec<char>>)
    ensures
        words@.map_values(|w: Vec<char>| w@) == name_words(chars@),
{
    let mut done: Vec<Vec<char>> = Vec::new();
    let mut current: Vec<char> = Vec::new();
    let mut i: usize = 0;
    proof {
        assert(chars@.take(0) =~= Seq::<char>::empty());
        assert(done@.map_values(|w: Vec<char>| w@) =~= Seq::<Seq<char>>::empty());
    }
    while i < chars.len()
        invariant
            i <= chars@.len(),
            current@.len() > 0 ==> i > 0 && !name_gap(chars@[i - 1]),
            i > 0 && !name_gap(chars@[i - 1]) ==> current@.len() > 0,
            name_words(chars@.take(i as int)) == if current@.len() > 0 {
                done@.map_values(|w: Vec<char>| w@).push(current@)
            } else {
                done@.map_values(|w: Vec<char>| w@)
            },
        decreases chars@.len() - i,
    {
        let c = chars[i];
        let ghost prefix = chars@.take(i + 1);
        proof {
            assert(prefix.drop_last() =~= chars@.take(i as int));
            assert(prefix.last() == c);
            if i >= 1 {
                assert(prefix[prefix.len() - 2] == chars@[i - 1]);
            }
        }
        if c == ' ' || c == '\t' || c == '-' {
            if current.len() > 0 {
                let ghost before = done@.map_values(|w: Vec<char>| w@);
                done.push(current);
                current = Vec::new();
                proof {
                    assert(done@.map_values(|w: Vec<char>| w@) =~= before.push(done@.last()@));
                }
            }
        } else {
            let ghost before = current@;
            current.push(c);
            proof {
                let ws = done@.map_values(|w: Vec<char>| w@);
                if before.len() > 0 {
                    assert(ws.push(before).update(ws.len() as int, before.push(c)) =~= ws.push(current@));
                } else {
                    assert(current@ =~= seq![c]);
                }
            }
        }
        i = i + 1;
    }
    if current.len() > 0 {
        let ghost before = done@.map_values(|w: Vec<char>| w@);
        done.push(current);
        proof {
            assert(done@.map_values(|w: Vec<char>| w@) =~= before.push(done@.last()@));
        }
    }
    proof {
        assert(chars@.take(chars@.len() as int) =~= chars@);
    }
    done
}

/// Whether `list` holds `word`.
fn listed(word: &[char], list: &Vec<Vec<char>>) -> (found: bool)
    ensures
        found == prefix_views(list@).contains(word@),
{
    let ghost views = prefix_views(list@);
    let mut i: usize = 0;
    while i < list.len()
        invariant
            i <= list@.len(),
            views == prefix_views(list@),
            forall|j: int| 0 <= j < i ==> views[j] != word@,
        decreases list@.len() - i,
    {
        if same_chars(list[i].as_slice(), word) {
            proof {
                assert(views[i as int] == word@);
            }
            return true;
        }
        i = i + 1;
    }
    false
}

/// `word` lowercased.
fn lowered(word: &[char]) -> (l: Vec<char>)
    ensures
        l@ == lower_word(word@),
{
    let mut out: Vec<char> = Vec::new();
    let mut i: usize = 0;
    while i < word.len()
        invariant
            i <= word@.len(),
            out@ == lower_word(word@.take(i as int)),
        decreases word@.len() - i,
    {
        out.push(lower(word[i]));
        proof {
            assert(lower_word(word@.take(i + 1)) =~= lower_word(word@.take(i as int)).push(lower_ascii(word@[i as int])));
        }
        i = i + 1;
    }
    proof {
        assert(word@.take(word@.len() as int) =~= word@);
    }
    out
}

/// A list of words, from their spellings.
fn word_list(words: &[&str]) -> (list: Vec<Vec<char>>)
    ensures
        prefix_views(list@) == words@.map_values(|w: &str| w@),
{
    let mut list: Vec<Vec<char>> = Vec::new();
    let mut i: usize = 0;
    while i < words.len()
        invariant
            i <= words@.len(),
            prefix_views(list@) == words@.map_values(|w: &str| w@).take(i as int),
        decreases words@.len() - i,
    {
        let ghost before = prefix_views(list@);
        list.push(chars_of(words[i]));
        proof {
            assert(prefix_views(list@) =~= before.push(words@[i as int]@));
            assert(words@.map_values(|w: &str| w@).take(i + 1) =~= words@.map_values(|w: &str| w@).take(i as int).push(words@[i as int]@));
        }
        i = i + 1;
    }
    proof {
        assert(words@.map_values(|w: &str| w@).take(words@.len() as int) =~= words@.map_values(|w: &str| w@));
    }
    list
}

/// Whether the quoted text names a colour and nothing else.
fn names_a_colour(text: &[char]) -> (named: bool)
    ensures
        named == names_colour(text@),
{
    let words = quoted_words(text);
    let ghost ws = words@.map_values(|w: Vec<char>| w@);
    let names_array = ["black", "red", "green", "yellow", "blue", "magenta", "cyan", "white"];
    let styles_array = ["bold", "dim", "italic", "underline", "reverse", "blink", "bright", "light", "default", "none"];
    let names = word_list(&names_array);
    let styles = word_list(&styles_array);
    proof {
        assert(names_array@.map_values(|w: &str| w@) =~= colour_names());
        assert(styles_array@.map_values(|w: &str| w@) =~= style_names());
    }
    let mut named = false;
    let mut i: usize = 0;
    while i < words.len()
        invariant
            i <= words@.len(),
            ws == words@.map_values(|w: Vec<char>| w@),
            ws == name_words(text@),
            prefix_views(names@) == colour_names(),
            prefix_views(styles@) == style_names(),
            forall|j: int| 0 <= j < i ==> colour_names().contains(lower_word(#[trigger] ws[j]))
                || style_names().contains(lower_word(ws[j])),
            named == exists|j: int| 0 <= j < i && colour_names().contains(lower_word(#[trigger] ws[j])),
        decreases words@.len() - i,
    {
        let word = lowered(words[i].as_slice());
        proof {
            assert(ws[i as int] == words@[i as int]@);
        }
        if listed(word.as_slice(), &names) {
            named = true;
        } else if !listed(word.as_slice(), &styles) {
            return false;
        }
        i = i + 1;
    }
    named
}

/// What a match at one position turned out to be.
pub enum Found {
    /// A lowercase `#rrggbb` literal ending at `end`.
    Colour { end: usize },
    /// A notation that cannot be substituted, ending at `end`.
    Unhandled { end: usize, why: &'static str },
}

/// The match as plain values.
pub open spec fn found_view(found: Option<Found>) -> Option<FoundView> {
    match found {
        Some(Found::Colour { end }) => Some(FoundView::Colour { end: end as int }),
        Some(Found::Unhandled { end, why }) => Some(FoundView::Unhandled { end: end as int, why: why@ }),
        None => None,
    }
}

/// The spellings in `words`, as lists of characters.
fn spellings(words: &[&str]) -> (list: Vec<Vec<char>>)
    ensures
        prefix_views(list@) == words@.map_values(|w: &str| w@),
{
    word_list(words)
}

/// Whatever starts at `at`, or `None` when nothing does.
pub fn found(chars: &[char], at: usize) -> (found: Option<Found>)
    ensures
        found_view(found) == found_spec(chars@, at as int),
        match found {
            Some(Found::Colour { end }) => at < end <= chars@.len(),
            Some(Found::Unhandled { end, .. }) => at < end <= chars@.len(),
            None => true,
        },
{
    let s = Ghost(chars@);
    if at >= chars.len() {
        return None;
    }
    let c = chars[at];
    let n = chars.len();
    if c == '#' {
        let count = count_hex(chars, at + 1);
        if !closes_at(chars, at + 1 + count) {
            return None;
        }
        if count == 6 {
            let mut upper = false;
            let mut k: usize = at + 1;
            while k < at + 7
                invariant
                    at + 7 <= n,
                    n == chars@.len(),
                    at + 1 <= k <= at + 7,
                    upper == exists|j: int| at + 1 <= j < k && 'A' <= #[trigger] chars@[j] && chars@[j] <= 'Z',
                decreases at + 7 - k,
            {
                if 'A' <= chars[k] && chars[k] <= 'Z' {
                    upper = true;
                }
                k = k + 1;
            }
            if upper {
                return Some(Found::Unhandled { end: at + 7, why: "uppercase hex" });
            }
            return Some(Found::Colour { end: at + 7 });
        }
        if count == 3 {
            return Some(Found::Unhandled { end: at + 4, why: "three-digit hex" });
        }
        if count == 8 {
            return Some(Found::Unhandled { end: at + 9, why: "eight-digit hex" });
        }
        return None;
    }
    if c == '0' && opens_at(chars, at) {
        if at + 1 < n && (chars[at + 1] == 'x' || chars[at + 1] == 'X') {
            let count = count_hex(chars, at + 2);
            if closes_at(chars, at + 2 + count) && (count == 6 || count == 8) {
                return Some(Found::Unhandled { end: at + 2 + count, why: "0x literal" });
            }
        }
        return None;
    }
    if (c == 'r' || c == 'R' || c == 'h' || c == 'H') && opens_at(chars, at) {
        let functions_array = ["rgb(", "rgba(", "hsl(", "hsla("];
        let list = spellings(&functions_array);
        proof {
            assert(functions_array@.map_values(|w: &str| w@) =~= functions());
        }
        match first_opening_at(chars, at, &list) {
            None => {
                return None;
            },
            Some(i) => {
                proof {
                    lemma_first_opening(chars@, at as int, functions());
                }
                let from = at + list[i].len();
                match find_char(chars, from, ')') {
                    None => {
                        return None;
                    },
                    Some(close) => {
                        proof {
                            lemma_find_from(chars@, from as int, ')');
                        }
                        if no_newline(chars, from, close) {
                            return Some(Found::Unhandled { end: close + 1, why: "function notation" });
                        }
                        return None;
                    },
                }
            },
        }
    }
    if (c == 'c' || c == 'C') && opens_at(chars, at) {
        let words_array = ["colour", "color"];
        let list = spellings(&words_array);
        proof {
            assert(words_array@.map_values(|w: &str| w@) =~= indexed_words());
        }
        match first_opening_at(chars, at, &list) {
            None => {
                return None;
            },
            Some(i) => {
                proof {
                    lemma_first_opening(chars@, at as int, indexed_words());
                }
                let from = at + list[i].len();
                let m = count_digits(chars, from);
                if 1 <= m && m <= 3 && closes_at(chars, from + m) {
                    let mut value: u32 = 0;
                    let mut k: usize = from;
                    proof {
                        assert(chars@.subrange(from as int, from as int) =~= Seq::<char>::empty());
                    }
                    while k < from + m
                        invariant
                            from <= k <= from + m,
                            from + m <= n,
                            n == chars@.len(),
                            m <= 3,
                            digit_run(chars@, from as int) == m,
                            value as nat == number(chars@.subrange(from as int, k as int)),
                            value < 1000,
                        decreases from + m - k,
                    {
                        proof {
                            lemma_digit_run_digits(chars@, from as int, k as int);
                            lemma_number_push(chars@.subrange(from as int, k as int), chars@[k as int]);
                            assert(chars@.subrange(from as int, k + 1) =~= chars@.subrange(from as int, k as int).push(chars@[k as int]));
                            assert forall|j: int| 0 <= j < k + 1 - from implies #[trigger] is_digit(chars@.subrange(from as int, k + 1)[j]) by {
                                lemma_digit_run_digits(chars@, from as int, from + j);
                            }
                            lemma_number_small(chars@.subrange(from as int, k + 1));
                        }
                        value = value * 10 + ((chars[k] as u32) - 48);
                        k = k + 1;
                    }
                    if value < 256 {
                        return Some(Found::Unhandled { end: from + m, why: "indexed colour" });
                    }
                }
                return None;
            },
        }
    }
    if c == '\\' || c == '\u{1b}' {
        let escapes_array = ["\\033[", "\\e[", "\\x1b[", "\\x1B[", "\u{1b}["];
        let list = spellings(&escapes_array);
        proof {
            assert(escapes_array@.map_values(|w: &str| w@) =~= escapes());
        }
        match first_held_at(chars, at, &list) {
            None => {
                return None;
            },
            Some(i) => {
                proof {
                    lemma_first_held(chars@, at as int, escapes());
                    reveal_strlit("\\033[");
                    reveal_strlit("\\e[");
                    reveal_strlit("\\x1b[");
                    reveal_strlit("\\x1B[");
                    reveal_strlit("\u{1b}[");
                    assert(list@[i as int]@.len() > 0);
                }
                let from = at + list[i].len();
                let count = count_params(chars, from);
                let mut params: Vec<char> = Vec::new();
                let mut k: usize = from;
                while k < from + count
                    invariant
                        from <= k <= from + count,
                        from + count <= n,
                        n == chars@.len(),
                        params@ == chars@.subrange(from as int, k as int),
                    decreases from + count - k,
                {
                    params.push(chars[k]);
                    proof {
                        assert(chars@.subrange(from as int, k + 1) =~= chars@.subrange(from as int, k as int).push(chars@[k as int]));
                    }
                    k = k + 1;
                }
                if sets_colour(params.as_slice()) {
                    let end = if from + count < n && chars[from + count] == 'm' {
                        from + count + 1
                    } else {
                        from + count
                    };
                    return Some(Found::Unhandled { end, why: "ANSI colour" });
                }
                return None;
            },
        }
    }
    if (c == '3' || c == '4') && opens_at(chars, at) {
        let selectors_array = ["38;5;", "48;5;", "38;2;", "48;2;"];
        let list = spellings(&selectors_array);
        proof {
            assert(selectors_array@.map_values(|w: &str| w@) =~= selectors());
        }
        match first_held_at(chars, at, &list) {
            None => {
                return None;
            },
            Some(_) => {
                proof {
                    assert(is_digit(chars@[at as int]));
                }
                let count = count_params(chars, at);
                return Some(Found::Unhandled { end: at + count, why: "ANSI colour" });
            },
        }
    }
    if c == '"' || c == '\'' {
        match find_char(chars, at + 1, c) {
            None => {
                return None;
            },
            Some(close) => {
                proof {
                    lemma_find_from(chars@, at + 1, c);
                }
                if no_newline(chars, at + 1, close) {
                    let mut inner: Vec<char> = Vec::new();
                    let mut k: usize = at + 1;
                    while k < close
                        invariant
                            at + 1 <= k <= close,
                            close < n,
                            n == chars@.len(),
                            inner@ == chars@.subrange(at + 1, k as int),
                        decreases close - k,
                    {
                        inner.push(chars[k]);
                        proof {
                            assert(chars@.subrange(at + 1, k + 1) =~= chars@.subrange(at + 1, k as int).push(chars@[k as int]));
                        }
                        k = k + 1;
                    }
                    if names_a_colour(inner.as_slice()) {
                        return Some(Found::Unhandled { end: close + 1, why: "colour name" });
                    }
                }
                return None;
            },
        }
    }
    None
}

/// The characters of a digit run are digits.
proof fn lemma_digit_run_digits(s: Seq<char>, from: int, k: int)
    requires
        from <= k < from + digit_run(s, from),
    ensures
        is_digit(s[k]),
        0 <= k < s.len(),
    decreases k - from,
{
    if k > from {
        lemma_digit_run_digits(s, from + 1, k);
    }
}

/// A number of at most three digits is below a thousand.
proof fn lemma_number_small(d: Seq<char>)
    requires
        d.len() <= 3,
        forall|k: int| 0 <= k < d.len() ==> #[trigger] is_digit(d[k]),
    ensures
        number(d) < 1000,
        d.len() <= 2 ==> number(d) < 100,
        d.len() <= 1 ==> number(d) < 10,
    decreases d.len(),
{
    if d.len() > 0 {
        assert forall|k: int| 0 <= k < d.drop_last().len() implies #[trigger] is_digit(d.drop_last()[k]) by {
            assert(d.drop_last()[k] == d[k]);
        }
        lemma_number_small(d.drop_last());
        assert(is_digit(d[d.len() - 1]));
        assert(((d.last() as u32) - 48) as nat <= 9);
    }
}

/// What `find_from` finds lies at or after where it looked, and is the character looked for.
proof fn lemma_find_from(s: Seq<char>, from: int, c: char)
    requires
        find_from(s, from, c) is Some,
    ensures
        from <= find_from(s, from, c)->0 < s.len(),
        s[find_from(s, from, c)->0] == c,
    decreases s.len() - from,
{
    if 0 <= from < s.len() && s[from] != c {
        lemma_find_from(s, from + 1, c);
    }
}

/// The prefix found is one of the list, and it opens at `at`.
proof fn lemma_first_opening(s: Seq<char>, at: int, prefixes: Seq<Seq<char>>)
    requires
        first_opening(s, at, prefixes) is Some,
    ensures
        opening(s, at, first_opening(s, at, prefixes)->0),
    decreases prefixes.len(),
{
    if prefixes.len() > 0 && !opening(s, at, prefixes[0]) {
        lemma_first_opening(s, at, prefixes.drop_first());
    }
}

/// The prefix found is held at `at`.
proof fn lemma_first_held(s: Seq<char>, at: int, prefixes: Seq<Seq<char>>)
    requires
        first_held(s, at, prefixes) is Some,
    ensures
        holds_at(s, at, first_held(s, at, prefixes)->0),
    decreases prefixes.len(),
{
    if prefixes.len() > 0 && !holds_at(s, at, prefixes[0]) {
        lemma_first_held(s, at, prefixes.drop_first());
    }
}

/// One colour value, and every place the source writes it.
#[derive(Debug)]
pub struct Colour {
    value: String,
    occurrences: Vec<Occurrence>,
}

/// A colour notation that cannot be substituted, and why.
#[derive(Debug)]
pub struct Unhandled {
    line: usize,
    text: String,
    why: &'static str,
}

/// What one pass over a file found.
#[derive(Debug)]
pub struct Scan {
    colours: Vec<Colour>,
    unhandled: Vec<Unhandled>,
}

/// An occurrence as plain values: line, start and end.
pub open spec fn occurrence_view(o: Occurrence) -> (nat, nat, nat) {
    (o.line_spec() as nat, o.start_spec() as nat, o.end_spec() as nat)
}

impl View for Colour {
    type V = (Seq<char>, Seq<(nat, nat, nat)>);

    closed spec fn view(&self) -> (Seq<char>, Seq<(nat, nat, nat)>) {
        (self.value@, self.occurrences@.map_values(|o: Occurrence| occurrence_view(o)))
    }
}

impl View for Unhandled {
    type V = (nat, Seq<char>, Seq<char>);

    closed spec fn view(&self) -> (nat, Seq<char>, Seq<char>) {
        (self.line as nat, self.text@, self.why@)
    }
}

/// A pass as plain values: the colours with their occurrences, and the unhandled notations.
pub struct ScanView {
    pub colours: Seq<(Seq<char>, Seq<(nat, nat, nat)>)>,
    pub unhandled: Seq<(nat, Seq<char>, Seq<char>)>,
}

impl View for Scan {
    type V = ScanView;

    closed spec fn view(&self) -> ScanView {
        ScanView {
            colours: self.colours@.map_values(|c: Colour| c@),
            unhandled: self.unhandled@.map_values(|u: Unhandled| u@),
        }
    }
}

/// Where `value` is among the colours, when it is.
pub open spec fn colour_index(colours: Seq<(Seq<char>, Seq<(nat, nat, nat)>)>, value: Seq<char>) -> Option<int>
    decreases colours.len(),
{
    if colours.len() == 0 {
        None
    } else {
        match colour_index(colours.drop_last(), value) {
            Some(i) => Some(i),
            None => if colours.last().0 == value {
                Some(colours.len() - 1)
            } else {
                None
            },
        }
    }
}

/// The colours with one more occurrence of `value`: under its entry, or as a new one.
pub open spec fn add_colour(
    colours: Seq<(Seq<char>, Seq<(nat, nat, nat)>)>,
    value: Seq<char>,
    occurrence: (nat, nat, nat),
) -> Seq<(Seq<char>, Seq<(nat, nat, nat)>)> {
    match colour_index(colours, value) {
        Some(i) => colours.update(i, (colours[i].0, colours[i].1.push(occurrence))),
        None => colours.push((value, seq![occurrence])),
    }
}

/// Reading `s` from `at`, on line `line`, having found `acc` so far.
pub open spec fn scan_from(s: Seq<char>, at: int, line: nat, acc: ScanView) -> ScanView
    decreases s.len() - at,
{
    if at < 0 || at >= s.len() {
        acc
    } else if s[at] == '\n' {
        scan_from(s, at + 1, line + 1, acc)
    } else {
        match found_spec(s, at) {
            Some(FoundView::Colour { end }) => if at < end <= s.len() {
                scan_from(
                    s,
                    end,
                    line,
                    ScanView {
                        colours: add_colour(acc.colours, s.subrange(at, end), (line, at as nat, end as nat)),
                        ..acc
                    },
                )
            } else {
                acc
            },
            Some(FoundView::Unhandled { end, why }) => if at < end <= s.len() {
                scan_from(
                    s,
                    end,
                    line,
                    ScanView { unhandled: acc.unhandled.push((line, s.subrange(at, end), why)), ..acc },
                )
            } else {
                acc
            },
            None => scan_from(s, at + 1, line, acc),
        }
    }
}

/// What one pass over `s` finds.
pub open spec fn scan_spec(s: Seq<char>) -> ScanView {
    scan_from(s, 0, 1, ScanView { colours: Seq::empty(), unhandled: Seq::empty() })
}

impl Colour {
    /// The value, as a theme would store it: lowercase `#rrggbb`.
    pub fn value(&self) -> (value: &str)
        ensures
            value@ == self@.0,
    {
        self.value.as_str()
    }

    /// Every occurrence, in source order.
    pub fn occurrences(&self) -> (occurrences: &Vec<Occurrence>)
        ensures
            occurrences@.map_values(|o: Occurrence| occurrence_view(o)) == self@.1,
    {
        &self.occurrences
    }
}

impl Unhandled {
    /// The 1-based line it is written on.
    pub fn line(&self) -> (line: usize)
        ensures
            line as nat == self@.0,
    {
        self.line
    }

    /// The notation, as the source writes it.
    pub fn text(&self) -> (text: &str)
        ensures
            text@ == self@.1,
    {
        self.text.as_str()
    }

    /// What kind of notation it is.
    pub fn why(&self) -> (why: &'static str)
        ensures
            why@ == self@.2,
    {
        self.why
    }

    /// `line N: text (why)`.
    pub fn message(&self) -> (text: String)
        ensures
            text@ == "line "@ + decimal(self@.0) + ": "@ + self@.1 + " ("@ + self@.2 + ")"@,
    {
        let mut out: Vec<char> = Vec::new();
        push_str(&mut out, "line ");
        let digits = decimal_chars(self.line);
        push_all(&mut out, digits.as_slice());
        push_str(&mut out, ": ");
        push_str(&mut out, self.text.as_str());
        push_str(&mut out, " (");
        push_str(&mut out, self.why);
        push_str(&mut out, ")");
        string_of(out.as_slice())
    }
}

impl Scan {
    /// Every distinct value, in the order the source first writes each one.
    pub fn colours(&self) -> (colours: &Vec<Colour>)
        ensures
            colours@.map_values(|c: Colour| c@) == self@.colours,
    {
        &self.colours
    }

    /// Every notation that cannot be substituted, in source order.
    pub fn unhandled(&self) -> (unhandled: &Vec<Unhandled>)
        ensures
            unhandled@.map_values(|u: Unhandled| u@) == self@.unhandled,
    {
        &self.unhandled
    }

    /// Whether the pass found nothing at all.
    pub fn is_empty(&self) -> (empty: bool)
        ensures
            empty == (self@.colours.len() == 0 && self@.unhandled.len() == 0),
    {
        self.colours.len() == 0 && self.unhandled.len() == 0
    }
}

/// Records one more occurrence of `value`.
fn record_colour(colours: &mut Vec<Colour>, value: &[char], occurrence: Occurrence)
    ensures
        final(colours)@.map_values(|c: Colour| c@) == add_colour(
            old(colours)@.map_values(|c: Colour| c@),
            value@,
            occurrence_view(occurrence),
        ),
{
    let ghost views = colours@.map_values(|c: Colour| c@);
    let mut i: usize = 0;
    let mut at: Option<usize> = None;
    while i < colours.len()
        invariant
            i <= colours@.len(),
            views == colours@.map_values(|c: Colour| c@),
            colour_index(views.take(i as int), value@) == match at {
                Some(j) => Some(j as int),
                None => None::<int>,
            },
            at matches Some(j) ==> j < i,
        decreases colours@.len() - i,
    {
        proof {
            assert(views.take(i + 1).drop_last() =~= views.take(i as int));
            assert(views.take(i + 1).last() == colours@[i as int]@);
        }
        if at.is_none() {
            let here = chars_of(colours[i].value.as_str());
            if same_chars(here.as_slice(), value) {
                at = Some(i);
            }
        }
        i = i + 1;
    }
    proof {
        assert(views.take(colours@.len() as int) =~= views);
    }
    match at {
        Some(j) => {
            let mut colour = colours.remove(j);
            let ghost before = colour@;
            colour.occurrences.push(occurrence);
            proof {
                assert(colour@.1 =~= before.1.push(occurrence_view(occurrence)));
            }
            colours.insert(j, colour);
            proof {
                assert(colours@.map_values(|c: Colour| c@) =~= views.update(j as int, (views[j as int].0, views[j as int].1.push(occurrence_view(occurrence)))));
            }
        },
        None => {
            let mut occurrences = Vec::new();
            occurrences.push(occurrence);
            let colour = Colour { value: string_of(value), occurrences };
            proof {
                assert(colour@.1 =~= seq![occurrence_view(occurrence)]);
            }
            colours.push(colour);
            proof {
                assert(colours@.map_values(|c: Colour| c@) =~= views.push((value@, seq![occurrence_view(occurrence)])));
            }
        },
    }
}

/// Reads `source` once, collecting the colours it holds.
///
/// Values are grouped, so a value written four times is one entry with four occurrences.
pub fn scan(source: &str) -> (scan: Scan)
    requires
        source@.len() < usize::MAX,
    ensures
        scan@ == scan_spec(source@),
{
    let chars = chars_of(source);
    let n = chars.len();
    let mut result = Scan { colours: Vec::new(), unhandled: Vec::new() };
    let mut line: usize = 1;
    let mut at: usize = 0;
    proof {
        assert(result@ == ScanView { colours: Seq::empty(), unhandled: Seq::empty() }) by {
            assert(result@.colours =~= Seq::empty());
            assert(result@.unhandled =~= Seq::empty());
        }
    }
    while at < n
        invariant
            at <= n,
            n == chars@.len(),
            n < usize::MAX,
            chars@ == source@,
            line <= at + 1,
            scan_from(chars@, at as int, line as nat, result@) == scan_spec(source@),
        decreases n - at,
    {
        if chars[at] == '\n' {
            line = line + 1;
            at = at + 1;
        } else {
            match found(chars.as_slice(), at) {
                Some(Found::Colour { end }) => {
                    let mut value: Vec<char> = Vec::new();
                    let mut k = at;
                    while k < end
                        invariant
                            at <= k <= end,
                            end <= n,
                            n == chars@.len(),
                            value@ == chars@.subrange(at as int, k as int),
                        decreases end - k,
                    {
                        value.push(chars[k]);
                        proof {
                            assert(chars@.subrange(at as int, k + 1) =~= chars@.subrange(at as int, k as int).push(chars@[k as int]));
                        }
                        k = k + 1;
                    }
                    let occurrence = Occurrence { line, start: at, end };
                    let ghost before = result@;
                    record_colour(&mut result.colours, value.as_slice(), occurrence);
                    proof {
                        assert(result@ == ScanView {
                            colours: add_colour(before.colours, chars@.subrange(at as int, end as int), (line as nat, at as nat, end as nat)),
                            ..before
                        });
                    }
                    at = end;
                },
                Some(Found::Unhandled { end, why }) => {
                    let mut text: Vec<char> = Vec::new();
                    let mut k = at;
                    while k < end
                        invariant
                            at <= k <= end,
                            end <= n,
                            n == chars@.len(),
                            text@ == chars@.subrange(at as int, k as int),
                        decreases end - k,
                    {
                        text.push(chars[k]);
                        proof {
                            assert(chars@.subrange(at as int, k + 1) =~= chars@.subrange(at as int, k as int).push(chars@[k as int]));
                        }
                        k = k + 1;
                    }
                    let ghost before = result@;
                    let item = Unhandled { line, text: string_of(text.as_slice()), why };
                    result.unhandled.push(item);
                    proof {
                        assert(result@.unhandled =~= before.unhandled.push(item@));
                        assert(result@ == ScanView { unhandled: before.unhandled.push((line as nat, chars@.subrange(at as int, end as int), why@)), ..before });
                    }
                    at = end;
                },
                None => {
                    at = at + 1;
                },
            }
        }
    }
    result
}

} // verus!
