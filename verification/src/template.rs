//! Template rendering.
//!
//! The template language is `{{token}}` substitution and nothing else. `{{{{` and `}}}}`
//! write a doubled brace, and a brace that opens nothing is copied as it is.

use vstd::prelude::*;

use crate::text::{
    chars_of, decimal, decimal_chars, lemma_line_across, lemma_line_step, line_at, push_all, push_str, starts_with,
    starts_with_at, string_of,
};
use crate::token::{is_path_spec, segment_char, TokenPath, Tokens};

verus! {

/// The first `}}` in `s` at or after `from`, as the index of its first brace.
pub open spec fn find_close(s: Seq<char>, from: int) -> Option<int>
    decreases s.len() - from,
{
    if from < 0 || from + 1 >= s.len() {
        None
    } else if s[from] == '}' && s[from + 1] == '}' {
        Some(from)
    } else {
        find_close(s, from + 1)
    }
}

/// The `{{token}}` at the front of `rest`: the token's characters, and how many characters
/// the marker covers. `None` when `rest` does not start with one.
pub open spec fn token_at(rest: Seq<char>) -> Option<(Seq<char>, int)> {
    if !starts_with(rest, seq!['{', '{']) {
        None
    } else {
        match find_close(rest, 2) {
            None => None,
            Some(end) => if is_path_spec(rest.subrange(2, end)) {
                Some((rest.subrange(2, end), end + 2))
            } else {
                None
            },
        }
    }
}

/// `{{{{`, which writes `{{`.
pub open spec fn open_escape() -> Seq<char> {
    seq!['{', '{', '{', '{']
}

/// `}}}}`, which writes `}}`.
pub open spec fn close_escape() -> Seq<char> {
    seq!['}', '}', '}', '}']
}

/// What rendering `rest`, which starts on line `line`, gives: the output, and every token
/// the table does not define together with the line it is written on, in source order.
pub open spec fn render_spec(rest: Seq<char>, line: nat, tokens: Map<Seq<char>, Seq<char>>) -> (
    Seq<char>,
    Seq<(Seq<char>, nat)>,
)
    decreases rest.len(),
{
    if rest.len() == 0 {
        (Seq::empty(), Seq::empty())
    } else if starts_with(rest, open_escape()) {
        let r = render_spec(rest.skip(4), line, tokens);
        (seq!['{', '{'] + r.0, r.1)
    } else if starts_with(rest, close_escape()) {
        let r = render_spec(rest.skip(4), line, tokens);
        (seq!['}', '}'] + r.0, r.1)
    } else if token_at(rest) is Some {
        let token = token_at(rest).unwrap().0;
        let length = token_at(rest).unwrap().1;
        let r = if 0 < length <= rest.len() {
            render_spec(rest.skip(length), line, tokens)
        } else {
            (Seq::empty(), Seq::empty())
        };
        if tokens.contains_key(token) {
            (tokens[token] + r.0, r.1)
        } else {
            (r.0, seq![(token, line)] + r.1)
        }
    } else {
        let c = rest[0];
        let r = render_spec(rest.skip(1), if c == '\n' { line + 1 } else { line }, tokens);
        (seq![c] + r.0, r.1)
    }
}

/// `{{token}}` always covers at least the four braces and stays inside `rest`.
pub proof fn lemma_token_at_length(rest: Seq<char>)
    requires
        token_at(rest) is Some,
    ensures
        4 <= token_at(rest).unwrap().1 <= rest.len(),
{
    lemma_find_close_bounds(rest, 2);
}

/// Where `find_close` finds a `}}`, it is at or after `from` and inside `s`.
pub proof fn lemma_find_close_bounds(s: Seq<char>, from: int)
    ensures
        find_close(s, from) matches Some(end) ==> from <= end && end + 1 < s.len() && s[end]
            == '}' && s[end + 1] == '}',
    decreases s.len() - from,
{
    if from < 0 || from + 1 >= s.len() {
    } else if s[from] == '}' && s[from + 1] == '}' {
    } else {
        lemma_find_close_bounds(s, from + 1);
    }
}

/// The first `}}` in `chars` at or after `from`.
fn find_close_exec(chars: &[char], from: usize) -> (end: Option<usize>)
    requires
        from <= chars@.len(),
    ensures
        end matches Some(e) ==> find_close(chars@, from as int) == Some(e as int),
        end is None ==> find_close(chars@, from as int) is None,
{
    let mut at = from;
    while at < chars.len() && 1 < chars.len() - at
        invariant
            from <= at,
            find_close(chars@, from as int) == find_close(chars@, at as int),
        decreases chars@.len() - at,
    {
        if chars[at] == '}' && chars[at + 1] == '}' {
            return Some(at);
        }
        at = at + 1;
    }
    None
}

/// The `{{token}}` at `chars[at..]`, as the token and how many characters it covers.
fn token_at_exec(chars: &[char], at: usize) -> (found: Option<(TokenPath, usize)>)
    requires
        at <= chars@.len(),
    ensures
        found is Some <==> token_at(chars@.skip(at as int)) is Some,
        found matches Some(f) ==> f.0@ == token_at(chars@.skip(at as int)).unwrap().0 && f.1
            == token_at(chars@.skip(at as int)).unwrap().1,
{
    let ghost rest = chars@.skip(at as int);
    let n = chars.len();
    let open: [char; 2] = ['{', '{'];
    if !starts_with_at(chars, at, &open) {
        proof {
            assert(open@ =~= seq!['{', '{']);
        }
        return None;
    }
    proof {
        assert(open@ =~= seq!['{', '{']);
        assert(2 <= rest.len());
        assert(at + 2 <= n);
    }
    let end = match find_close_exec(chars, at + 2) {
        Some(end) => end,
        None => {
            proof {
                lemma_find_close_shift(chars@, at as int, 2);
            }
            return None;
        },
    };
    proof {
        lemma_find_close_shift(chars@, at as int, 2);
        lemma_find_close_bounds(chars@, at + 2);
    }
    let mut inner: Vec<char> = Vec::new();
    let mut i = at + 2;
    while i < end
        invariant
            at + 2 <= i <= end,
            end < chars@.len(),
            inner@ == chars@.subrange(at + 2, i as int),
        decreases end - i,
    {
        inner.push(chars[i]);
        proof {
            assert(chars@.subrange(at + 2, i + 1) == chars@.subrange(at + 2, i as int).push(
                chars@[i as int],
            ));
        }
        i = i + 1;
    }
    proof {
        assert(inner@ =~= rest.subrange(2, end - at));
    }
    match TokenPath::parse_chars(inner.as_slice()) {
        Some(token) => Some((token, end - at + 2)),
        None => None,
    }
}

/// `find_close` reads the same `}}` in a suffix, shifted.
proof fn lemma_find_close_shift(s: Seq<char>, at: int, from: int)
    requires
        0 <= at <= s.len(),
        0 <= from,
    ensures
        find_close(s.skip(at), from) == match find_close(s, at + from) {
            Some(e) => Some(e - at),
            None => None,
        },
    decreases s.len() - at - from,
{
    let t = s.skip(at);
    if from + 1 >= t.len() {
    } else {
        assert(t[from] == s[at + from]);
        assert(t[from + 1] == s[at + from + 1]);
        if t[from] == '}' && t[from + 1] == '}' {
        } else {
            lemma_find_close_shift(s, at, from + 1);
        }
    }
}

/// A template and the path it was read from.
#[derive(Debug)]
pub struct Template {
    path: String,
    source: String,
}

/// One occurrence of a token the theme does not define.
#[derive(Debug, Eq)]
pub struct UndefinedToken {
    /// The token path, exactly as the template wrote it.
    pub token: TokenPath,
    /// 1-based line the occurrence starts on.
    pub line: usize,
}

impl PartialEq for UndefinedToken {
    fn eq(&self, other: &Self) -> (equal: bool) {
        self.token == other.token && self.line == other.line
    }
}

impl vstd::std_specs::cmp::PartialEqSpecImpl for UndefinedToken {
    open spec fn obeys_eq_spec() -> bool {
        true
    }

    open spec fn eq_spec(&self, other: &UndefinedToken) -> bool {
        self.token@ == other.token@ && self.line == other.line
    }
}

/// Rendering failed.
#[derive(Debug)]
pub enum TemplateError {
    /// The template references tokens the theme does not define.
    UndefinedTokens {
        /// The template the occurrences were found in.
        path: String,
        /// Every occurrence, in source order.
        occurrences: Vec<UndefinedToken>,
    },
}

/// The occurrences as plain values: the token and its line.
pub open spec fn occurrence_views(occurrences: Seq<UndefinedToken>) -> Seq<(Seq<char>, nat)> {
    occurrences.map_values(|o: UndefinedToken| (o.token@, o.line as nat))
}

/// `line N: token`, as one undefined token is listed.
pub open spec fn occurrence_line(token: Seq<char>, line: nat) -> Seq<char> {
    seq!['l', 'i', 'n', 'e', ' '] + decimal(line) + seq![':', ' '] + token
}

impl UndefinedToken {
    /// `line N: token`.
    pub fn message(&self) -> (text: String)
        ensures
            text@ == occurrence_line(self.token@, self.line as nat),
    {
        let mut out: Vec<char> = Vec::new();
        push_str(&mut out, "line ");
        let number = decimal_chars(self.line);
        push_all(&mut out, number.as_slice());
        push_str(&mut out, ": ");
        push_str(&mut out, self.token.as_str());
        proof {
            reveal_strlit("line ");
            reveal_strlit(": ");
            assert(out@ =~= occurrence_line(self.token@, self.line as nat));
        }
        string_of(out.as_slice())
    }
}

/// The occurrences, one indented line each, joined by newlines.
pub open spec fn listed_occurrences(occurrences: Seq<(Seq<char>, nat)>) -> Seq<char>
    decreases occurrences.len(),
{
    if occurrences.len() == 0 {
        Seq::empty()
    } else if occurrences.len() == 1 {
        seq![' ', ' '] + occurrence_line(occurrences[0].0, occurrences[0].1)
    } else {
        listed_occurrences(occurrences.drop_last()) + seq!['\n', ' ', ' '] + occurrence_line(
            occurrences.last().0,
            occurrences.last().1,
        )
    }
}

impl TemplateError {
    /// `path: undefined tokens`, then every occurrence on a line of its own.
    pub fn message(&self) -> (text: String)
        ensures
            match self {
                TemplateError::UndefinedTokens { path, occurrences } => text@ == path@ + seq![
                    ':',
                    ' ',
                ] + seq!['u', 'n', 'd', 'e', 'f', 'i', 'n', 'e', 'd', ' ', 't', 'o', 'k', 'e', 'n', 's', '\n']
                    + listed_occurrences(occurrence_views(occurrences@)),
            },
    {
        match self {
            TemplateError::UndefinedTokens { path, occurrences } => {
                let mut out: Vec<char> = Vec::new();
                push_str(&mut out, path.as_str());
                push_str(&mut out, ": undefined tokens\n");
                let ghost start = out@;
                let ghost views = occurrence_views(occurrences@);
                let mut i: usize = 0;
                while i < occurrences.len()
                    invariant
                        i <= occurrences@.len(),
                        views == occurrence_views(occurrences@),
                        out@ == start + listed_occurrences(views.take(i as int)),
                    decreases occurrences@.len() - i,
                {
                    if i > 0 {
                        push_str(&mut out, "\n");
                        proof {
                            reveal_strlit("\n");
                        }
                    }
                    push_str(&mut out, "  ");
                    let line = occurrences[i].message();
                    push_str(&mut out, line.as_str());
                    proof {
                        reveal_strlit("  ");
                        let next = views.take(i + 1);
                        assert(next.drop_last() =~= views.take(i as int));
                        assert(next.last() == views[i as int]);
                        if i == 0 {
                            assert(views.take(0) =~= Seq::<(Seq<char>, nat)>::empty());
                        }
                    }
                    i = i + 1;
                }
                proof {
                    reveal_strlit(": undefined tokens\n");
                    assert(views.take(occurrences@.len() as int) =~= views);
                }
                string_of(out.as_slice())
            },
        }
    }
}

impl Template {
    /// A template with `source` as its body, attributed to `path` in errors.
    pub fn new(path: &str, source: &str) -> (template: Template)
        ensures
            template.path() == path@,
            template.source() == source@,
    {
        Template { path: path.to_owned(), source: source.to_owned() }
    }

    /// The path errors name.
    pub closed spec fn path(&self) -> Seq<char> {
        self.path@
    }

    /// The template's text.
    pub closed spec fn source(&self) -> Seq<char> {
        self.source@
    }

    /// Substitutes every `{{token}}` and returns the rendered output.
    ///
    /// # Errors
    ///
    /// Returns every undefined token in one pass.
    pub fn render(&self, tokens: &Tokens) -> (result: Result<String, TemplateError>)
        ensures
            ({
                let (output, undefined) = render_spec(self.source(), 1, tokens@);
                &&& result is Ok <==> undefined.len() == 0
                &&& result matches Ok(text) ==> text@ == output
                &&& result matches Err(TemplateError::UndefinedTokens { path, occurrences }) ==> path@
                    == self.path() && occurrence_views(occurrences@) == undefined
            }),
    {
        let chars = chars_of(self.source.as_str());
        let (output, occurrences) = render_chars(chars.as_slice(), tokens);
        if occurrences.len() == 0 {
            Ok(string_of(output.as_slice()))
        } else {
            Err(TemplateError::UndefinedTokens { path: self.path.clone(), occurrences })
        }
    }
}

/// Renders `source` against `tokens`.
pub fn render_chars(source: &[char], tokens: &Tokens) -> (rendered: (Vec<char>, Vec<UndefinedToken>))
    ensures
        rendered.0@ == render_spec(source@, 1, tokens@).0,
        occurrence_views(rendered.1@) == render_spec(source@, 1, tokens@).1,
{
    let mut output: Vec<char> = Vec::new();
    let mut occurrences: Vec<UndefinedToken> = Vec::new();
    let mut newlines: usize = 0;
    let mut at: usize = 0;
    let n = source.len();
    let ghost whole = render_spec(source@, 1, tokens@);
    proof {
        assert(source@.skip(0) =~= source@);
    }
    while at < n
        invariant
            n == source@.len(),
            at <= n,
            newlines <= at,
            whole == render_spec(source@, 1, tokens@),
            whole.0 == output@ + render_spec(source@.skip(at as int), newlines as nat + 1, tokens@).0,
            whole.1 == occurrence_views(occurrences@) + render_spec(
                source@.skip(at as int),
                newlines as nat + 1,
                tokens@,
            ).1,
        decreases n - at,
    {
        let ghost rest = source@.skip(at as int);
        let ghost before_out = output@;
        let ghost before_occ = occurrence_views(occurrences@);
        let open: [char; 4] = ['{', '{', '{', '{'];
        let close: [char; 4] = ['}', '}', '}', '}'];
        proof {
            assert(open@ =~= open_escape());
            assert(close@ =~= close_escape());
        }
        if starts_with_at(source, at, &open) {
            output.push('{');
            output.push('{');
            proof {
                assert(rest.skip(4) =~= source@.skip(at + 4));
                assert(output@ =~= before_out + seq!['{', '{']);
            }
            at = at + 4;
        } else if starts_with_at(source, at, &close) {
            output.push('}');
            output.push('}');
            proof {
                assert(rest.skip(4) =~= source@.skip(at + 4));
                assert(output@ =~= before_out + seq!['}', '}']);
            }
            at = at + 4;
        } else {
            match token_at_exec(source, at) {
                Some((token, length)) => {
                    proof {
                        lemma_token_at_length(rest);
                        assert(rest.skip(length as int) =~= source@.skip(at + length));
                    }
                    match tokens.get(&token) {
                        Some(value) => {
                            push_str(&mut output, value);
                        },
                        None => {
                            let ghost token_view = token@;
                            occurrences.push(UndefinedToken { token, line: newlines + 1 });
                            proof {
                                assert(occurrence_views(occurrences@) =~= before_occ.push((token_view, newlines as nat + 1)));
                            }
                        },
                    }
                    at = at + length;
                },
                None => {
                    let c = source[at];
                    output.push(c);
                    if c == '\n' {
                        newlines = newlines + 1;
                    }
                    proof {
                        assert(rest.skip(1) =~= source@.skip(at + 1));
                        assert(output@ =~= before_out + seq![c]);
                    }
                    at = at + 1;
                },
            }
        }
    }
    proof {
        assert(source@.skip(n as int) =~= Seq::<char>::empty());
        assert(output@ =~= whole.0);
        assert(occurrence_views(occurrences@) =~= whole.1);
    }
    (output, occurrences)
}

/// Every `{{token}}` marker rendering `rest` acts on, in source order, each with the line it is
/// written on: what a `{{{{` or `}}}}` escape consumes is no marker.
pub open spec fn markers_spec(rest: Seq<char>, line: nat) -> Seq<(Seq<char>, nat)>
    decreases rest.len(),
{
    if rest.len() == 0 {
        Seq::empty()
    } else if starts_with(rest, open_escape()) || starts_with(rest, close_escape()) {
        markers_spec(rest.skip(4), line)
    } else if token_at(rest) is Some {
        let length = token_at(rest).unwrap().1;
        seq![(token_at(rest).unwrap().0, line)] + if 0 < length <= rest.len() {
            markers_spec(rest.skip(length), line)
        } else {
            Seq::empty()
        }
    } else {
        let c = rest[0];
        markers_spec(rest.skip(1), if c == '\n' { line + 1 } else { line })
    }
}

/// The markers of `markers` whose token `tokens` does not define, in order.
pub open spec fn undefined_among(markers: Seq<(Seq<char>, nat)>, tokens: Map<Seq<char>, Seq<char>>) -> Seq<(Seq<char>, nat)>
    decreases markers.len(),
{
    if markers.len() == 0 {
        Seq::empty()
    } else {
        (if tokens.contains_key(markers[0].0) {
            Seq::empty()
        } else {
            seq![markers[0]]
        }) + undefined_among(markers.drop_first(), tokens)
    }
}

proof fn lemma_undefined_among_empty(markers: Seq<(Seq<char>, nat)>, tokens: Map<Seq<char>, Seq<char>>)
    ensures
        undefined_among(markers, tokens).len() == 0 <==> forall|i: int| 0 <= i < markers.len() ==> tokens.contains_key(#[trigger] markers[i].0),
    decreases markers.len(),
{
    if markers.len() > 0 {
        lemma_undefined_among_empty(markers.drop_first(), tokens);
        if forall|i: int| 0 <= i < markers.len() ==> tokens.contains_key(#[trigger] markers[i].0) {
            assert forall|i: int| 0 <= i < markers.drop_first().len() implies tokens.contains_key(#[trigger] markers.drop_first()[i].0) by {
                assert(markers.drop_first()[i] == markers[i + 1]);
            }
        }
        if undefined_among(markers, tokens).len() == 0 {
            assert forall|i: int| 0 <= i < markers.len() implies tokens.contains_key(#[trigger] markers[i].0) by {
                if i > 0 {
                    assert(markers[i] == markers.drop_first()[i - 1]);
                }
            }
        }
    }
}

/// Rendering reports exactly the markers whose token is undefined, in source order with
/// their lines, so it succeeds exactly when every marker's token is defined.
pub proof fn lemma_render_reports_undefined(rest: Seq<char>, line: nat, tokens: Map<Seq<char>, Seq<char>>)
    ensures
        render_spec(rest, line, tokens).1 == undefined_among(markers_spec(rest, line), tokens),
        render_spec(rest, line, tokens).1.len() == 0 <==> forall|i: int|
            0 <= i < markers_spec(rest, line).len() ==> tokens.contains_key(#[trigger] markers_spec(rest, line)[i].0),
    decreases rest.len(),
{
    lemma_undefined_among_empty(markers_spec(rest, line), tokens);
    if rest.len() == 0 {
    } else if starts_with(rest, open_escape()) || starts_with(rest, close_escape()) {
        lemma_render_reports_undefined(rest.skip(4), line, tokens);
    } else if token_at(rest) is Some {
        let token = token_at(rest).unwrap().0;
        let length = token_at(rest).unwrap().1;
        lemma_token_at_length(rest);
        lemma_render_reports_undefined(rest.skip(length), line, tokens);
        let m = markers_spec(rest, line);
        assert(m.drop_first() =~= markers_spec(rest.skip(length), line));
    } else {
        let c = rest[0];
        lemma_render_reports_undefined(rest.skip(1), if c == '\n' { line + 1 } else { line }, tokens);
    }
    lemma_undefined_among_empty(markers_spec(rest, line), tokens);
}

/// A text with no brace in it renders to itself, with nothing undefined.
pub proof fn lemma_render_plain(rest: Seq<char>, line: nat, tokens: Map<Seq<char>, Seq<char>>)
    requires
        forall|i: int| 0 <= i < rest.len() ==> #[trigger] rest[i] != '{' && rest[i] != '}',
    ensures
        render_spec(rest, line, tokens) == (rest, Seq::<(Seq<char>, nat)>::empty()),
    decreases rest.len(),
{
    if rest.len() > 0 {
        let c = rest[0];
        if rest.len() >= 4 {
            assert(rest.take(4)[0] == rest[0]);
        }
        if rest.len() >= 2 {
            assert(rest.take(2)[0] == rest[0]);
        }
        assert(!starts_with(rest, open_escape()));
        assert(!starts_with(rest, close_escape()));
        assert(!starts_with(rest, seq!['{', '{']));
        let tail = rest.skip(1);
        assert forall|i: int| 0 <= i < tail.len() implies #[trigger] tail[i] != '{' && tail[i] != '}' by {
            assert(tail[i] == rest[i + 1]);
        }
        lemma_render_plain(tail, if c == '\n' { line + 1 } else { line }, tokens);
        assert(seq![c] + tail =~= rest);
    }
}

/// `mk` is the `{{token}}` at some position of `s` at or after `off`, reported on the line
/// that position is on.
pub open spec fn placed(s: Seq<char>, off: int, mk: (Seq<char>, nat)) -> bool {
    exists|p: int|
        off <= p < s.len() && #[trigger] token_at(s.skip(p)) is Some && mk.0 == token_at(s.skip(p)).unwrap().0 && mk.1
            == line_at(s, p)
}

/// Every marker of `s` from `off` on is the `{{token}}` at some position at or after `off`,
/// reported on the line that position is on: one more than the newlines before it.
pub proof fn lemma_markers_placed(s: Seq<char>, off: int)
    requires
        0 <= off <= s.len(),
    ensures
        forall|i: int|
            0 <= i < markers_spec(s.skip(off), line_at(s, off)).len() ==> placed(
                s,
                off,
                #[trigger] markers_spec(s.skip(off), line_at(s, off))[i],
            ),
    decreases s.len() - off,
{
    let rest = s.skip(off);
    let line = line_at(s, off);
    let m = markers_spec(rest, line);
    if rest.len() == 0 {
    } else if starts_with(rest, open_escape()) || starts_with(rest, close_escape()) {
        assert forall|k: int| off <= k < off + 4 implies #[trigger] s[k] != '\n' by {
            assert(rest.take(4)[k - off] == s[k]);
        }
        lemma_line_across(s, off, off + 4);
        assert(rest.skip(4) =~= s.skip(off + 4));
        lemma_markers_placed(s, off + 4);
        let later = markers_spec(s.skip(off + 4), line_at(s, off + 4));
        assert(m == later);
        assert forall|i: int| 0 <= i < m.len() implies placed(s, off, #[trigger] m[i]) by {
            assert(placed(s, off + 4, later[i]));
        }
    } else if token_at(rest) is Some {
        let length = token_at(rest).unwrap().1;
        lemma_token_at_length(rest);
        let end = find_close(rest, 2)->0;
        lemma_find_close_bounds(rest, 2);
        let token = rest.subrange(2, end);
        assert forall|k: int| off <= k < off + length implies #[trigger] s[k] != '\n' by {
            let r = k - off;
            assert(rest[r] == s[k]);
            if r < 2 {
                assert(rest.take(2)[r] == rest[r]);
            } else if r < end {
                assert(token[r - 2] == rest[r]);
                assert(segment_char(token[r - 2]) || token[r - 2] == '.');
            }
        }
        lemma_line_across(s, off, off + length);
        assert(rest.skip(length) =~= s.skip(off + length));
        lemma_markers_placed(s, off + length);
        let later = markers_spec(s.skip(off + length), line_at(s, off + length));
        assert forall|i: int| 0 <= i < m.len() implies placed(s, off, #[trigger] m[i]) by {
            if i == 0 {
                assert(token_at(s.skip(off)) is Some);
            } else {
                assert(m[i] == later[i - 1]);
                assert(placed(s, off + length, later[i - 1]));
            }
        }
    } else {
        lemma_line_step(s, off);
        assert(rest.skip(1) =~= s.skip(off + 1));
        assert(rest[0] == s[off]);
        lemma_markers_placed(s, off + 1);
        let later = markers_spec(s.skip(off + 1), line_at(s, off + 1));
        assert(m == later);
        assert forall|i: int| 0 <= i < m.len() implies placed(s, off, #[trigger] m[i]) by {
            assert(placed(s, off + 1, later[i]));
        }
    }
}

} // verus!
