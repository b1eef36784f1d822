//! Building the template: substituting the colours that were named, escaping the rest.
//!
//! An apply straight after an init reproduces the original file character for character.
//! Everything here exists to make that true, and [`lemma_weave_renders_back`] states it.

use vstd::prelude::*;

use crate::init::scan::Occurrence;
use crate::template::{close_escape, find_close, open_escape, render_spec, token_at};
use crate::text::{chars_of, push_all, starts_with, starts_with_at, string_of};
use crate::token::{is_path_spec, segment_char, TokenPath};

verus! {

/// One occurrence, and the token that replaces it.
#[derive(Debug)]
pub struct Binding {
    start: usize,
    end: usize,
    token: TokenPath,
}

/// A binding as a plain value: where the text it replaces starts and ends, and the token.
pub type BindingView = (int, int, Seq<char>);

impl View for Binding {
    type V = BindingView;

    closed spec fn view(&self) -> BindingView {
        (self.start as int, self.end as int, self.token@)
    }
}

impl Clone for Binding {
    fn clone(&self) -> (copy: Self)
        ensures
            copy@ == self@,
    {
        Binding { start: self.start, end: self.end, token: self.token.clone() }
    }
}

impl Binding {
    /// Binds `occurrence` to `token`.
    pub fn new(occurrence: &Occurrence, token: TokenPath) -> (binding: Binding)
        ensures
            binding@ == (occurrence.start_spec() as int, occurrence.end_spec() as int, token@),
    {
        let (start, end) = occurrence.range();
        Binding { start, end, token }
    }

    /// The token it replaces its occurrence with.
    pub fn token(&self) -> (token: &TokenPath)
        ensures
            token@ == self@.2,
    {
        &self.token
    }

    /// Where the text it replaces starts.
    pub fn start(&self) -> (start: usize)
        ensures
            start == self@.0,
    {
        self.start
    }

    /// Where the text it replaces ends.
    pub fn end(&self) -> (end: usize)
        ensures
            end == self@.1,
    {
        self.end
    }
}

/// `sorted` with `b` placed after every binding that starts no later than it does.
pub open spec fn insert_by_start(sorted: Seq<BindingView>, b: BindingView) -> Seq<BindingView>
    decreases sorted.len(),
{
    if sorted.len() == 0 {
        seq![b]
    } else if sorted.last().0 <= b.0 {
        sorted.push(b)
    } else {
        insert_by_start(sorted.drop_last(), b).push(sorted.last())
    }
}

/// `bindings` in order of where they start, bindings that start together in the order given.
pub open spec fn sort_by_start(bindings: Seq<BindingView>) -> Seq<BindingView>
    decreases bindings.len(),
{
    if bindings.len() == 0 {
        Seq::empty()
    } else {
        insert_by_start(sort_by_start(bindings.drop_last()), bindings.last())
    }
}

/// `{{token}}`.
pub open spec fn marker(token: Seq<char>) -> Seq<char> {
    seq!['{', '{'] + token + seq!['}', '}']
}

/// What weaving `source` from `at` on gives, with `ordered[next]` the binding to look for.
pub open spec fn weave_spec(source: Seq<char>, ordered: Seq<BindingView>, at: int, next: int) -> Seq<
    char,
>
    decreases ordered.len() - next, source.len() - at,
{
    if at < 0 || at >= source.len() || next < 0 || next > ordered.len() {
        Seq::empty()
    } else if next < ordered.len() && ordered[next].0 == at {
        let b = ordered[next];
        if 0 <= b.1 <= source.len() {
            marker(b.2) + weave_spec(source, ordered, b.1, next + 1)
        } else {
            Seq::empty()
        }
    } else if starts_with(source.skip(at), seq!['{', '{']) {
        seq!['{', '{', '{', '{'] + weave_spec(source, ordered, at + 2, next)
    } else if starts_with(source.skip(at), seq!['}', '}']) {
        seq!['}', '}', '}', '}'] + weave_spec(source, ordered, at + 2, next)
    } else {
        seq![source[at]] + weave_spec(source, ordered, at + 1, next)
    }
}

/// The template `weave` builds from `source` and `bindings`.
pub open spec fn woven(source: Seq<char>, bindings: Seq<BindingView>) -> Seq<char> {
    weave_spec(source, sort_by_start(bindings), 0, 0)
}

/// The bindings as plain values.
pub open spec fn binding_views(bindings: Seq<Binding>) -> Seq<BindingView> {
    bindings.map_values(|b: Binding| b@)
}

/// Inserting keeps every binding and adds `b`.
pub proof fn lemma_insert_members(sorted: Seq<BindingView>, b: BindingView)
    ensures
        insert_by_start(sorted, b).len() == sorted.len() + 1,
        forall|i: int|
            0 <= i < insert_by_start(sorted, b).len() ==> #[trigger] insert_by_start(sorted, b)[i]
                == b || sorted.contains(insert_by_start(sorted, b)[i]),
    decreases sorted.len(),
{
    if sorted.len() == 0 {
    } else if sorted.last().0 <= b.0 {
        assert forall|i: int| 0 <= i < sorted.len() + 1 implies #[trigger] sorted.push(b)[i] == b
            || sorted.contains(sorted.push(b)[i]) by {
            if i < sorted.len() {
                assert(sorted.push(b)[i] == sorted[i]);
            }
        }
    } else {
        let rest = sorted.drop_last();
        lemma_insert_members(rest, b);
        let inner = insert_by_start(rest, b);
        assert forall|i: int| 0 <= i < inner.len() + 1 implies #[trigger] inner.push(
            sorted.last(),
        )[i] == b || sorted.contains(inner.push(sorted.last())[i]) by {
            if i < inner.len() {
                assert(inner.push(sorted.last())[i] == inner[i]);
                if inner[i] != b {
                    let k = choose|k: int| 0 <= k < rest.len() && rest[k] == inner[i];
                    assert(sorted[k] == rest[k]);
                }
            } else {
                assert(sorted[sorted.len() - 1] == sorted.last());
            }
        }
    }
}

/// Sorting keeps exactly the bindings it was given, each of them somewhere.
pub proof fn lemma_sort_members(bindings: Seq<BindingView>)
    ensures
        sort_by_start(bindings).len() == bindings.len(),
        forall|i: int|
            0 <= i < sort_by_start(bindings).len() ==> bindings.contains(
                #[trigger] sort_by_start(bindings)[i],
            ),
    decreases bindings.len(),
{
    if bindings.len() > 0 {
        let rest = bindings.drop_last();
        lemma_sort_members(rest);
        lemma_insert_members(sort_by_start(rest), bindings.last());
        let sorted = sort_by_start(bindings);
        assert forall|i: int| 0 <= i < sorted.len() implies bindings.contains(
            #[trigger] sorted[i],
        ) by {
            if sorted[i] == bindings.last() {
                assert(bindings[bindings.len() - 1] == bindings.last());
            } else {
                let k = choose|k: int|
                    0 <= k < sort_by_start(rest).len() && sort_by_start(rest)[k] == sorted[i];
                let j = choose|j: int| 0 <= j < rest.len() && rest[j] == sort_by_start(rest)[k];
                assert(bindings[j] == rest[j]);
            }
        }
    }
}

/// Inserts `b` into `sorted`, which is in order of where its bindings start.
fn insert_exec(sorted: &mut Vec<Binding>, b: Binding)
    ensures
        binding_views(final(sorted)@) == insert_by_start(binding_views(old(sorted)@), b@),
    decreases old(sorted)@.len(),
{
    let ghost views = binding_views(sorted@);
    if sorted.len() == 0 {
        sorted.push(b);
        proof {
            assert(binding_views(sorted@) =~= seq![b@]);
        }
        return;
    }
    let last_start = sorted[sorted.len() - 1].start;
    if last_start <= b.start {
        sorted.push(b);
        proof {
            assert(binding_views(sorted@) =~= views.push(b@));
            assert(views.last() == views[views.len() - 1]);
        }
        return;
    }
    let last = sorted.pop().unwrap();
    proof {
        assert(binding_views(sorted@) =~= views.drop_last());
        assert(last@ == views.last());
    }
    insert_exec(sorted, b);
    let ghost middle = binding_views(sorted@);
    sorted.push(last);
    proof {
        assert(binding_views(sorted@) =~= middle.push(views.last()));
    }
}

/// `bindings` in order of where they start, ties in the order given.
pub fn sorted_by_start(bindings: &[Binding]) -> (sorted: Vec<Binding>)
    ensures
        binding_views(sorted@) == sort_by_start(binding_views(bindings@)),
{
    let ghost views = binding_views(bindings@);
    let mut sorted: Vec<Binding> = Vec::new();
    let mut i: usize = 0;
    proof {
        assert(views.take(0) =~= Seq::<BindingView>::empty());
        assert(binding_views(sorted@) =~= Seq::<BindingView>::empty());
    }
    while i < bindings.len()
        invariant
            i <= bindings@.len(),
            views == binding_views(bindings@),
            binding_views(sorted@) == sort_by_start(views.take(i as int)),
        decreases bindings@.len() - i,
    {
        insert_exec(&mut sorted, bindings[i].clone());
        proof {
            assert(views.take(i + 1).drop_last() =~= views.take(i as int));
            assert(views.take(i + 1).last() == views[i as int]);
        }
        i = i + 1;
    }
    proof {
        assert(views.take(bindings@.len() as int) =~= views);
    }
    sorted
}

/// Rewrites `source` as a template, replacing every bound occurrence with its token.
///
/// Occurrences that nothing binds keep their literal, which is what a hex that is not a
/// colour needs. Every doubled brace is escaped, so a source with template syntax of its
/// own survives the round trip.
pub fn weave(source: &str, bindings: &[Binding]) -> (template: String)
    requires
        forall|i: int| 0 <= i < bindings@.len() ==> #[trigger] bindings@[i]@.1 <= source@.len(),
    ensures
        template@ == woven(source@, binding_views(bindings@)),
{
    let chars = chars_of(source);
    let ordered = sorted_by_start(bindings);
    let ghost views = binding_views(ordered@);
    proof {
        lemma_sort_members(binding_views(bindings@));
        assert forall|i: int| 0 <= i < views.len() implies #[trigger] views[i].1 <= chars@.len() by {
            let j = choose|j: int|
                0 <= j < binding_views(bindings@).len() && binding_views(bindings@)[j] == views[i];
            assert(bindings@[j]@ == binding_views(bindings@)[j]);
        }
    }
    let mut template: Vec<char> = Vec::new();
    let mut at: usize = 0;
    let mut next: usize = 0;
    let n = chars.len();
    let open: [char; 2] = ['{', '{'];
    let close: [char; 2] = ['}', '}'];
    proof {
        assert(open@ =~= seq!['{', '{']);
        assert(close@ =~= seq!['}', '}']);
    }
    while at < n
        invariant
            n == chars@.len(),
            at <= n,
            next <= ordered@.len(),
            views == binding_views(ordered@),
            open@ == seq!['{', '{'],
            close@ == seq!['}', '}'],
            forall|i: int| 0 <= i < views.len() ==> #[trigger] views[i].1 <= chars@.len(),
            weave_spec(chars@, views, 0, 0) == template@ + weave_spec(
                chars@,
                views,
                at as int,
                next as int,
            ),
        decreases ordered@.len() - next, n - at,
    {
        let ghost before = template@;
        if next < ordered.len() && ordered[next].start == at {
            let b = &ordered[next];
            assert(views[next as int] == b@);
            push_all(&mut template, &['{', '{']);
            let token = b.token.chars();
            push_all(&mut template, token.as_slice());
            push_all(&mut template, &['}', '}']);
            proof {
                assert(template@ =~= before + marker(b@.2));
            }
            at = b.end;
            next = next + 1;
        } else if starts_with_at(chars.as_slice(), at, &open) {
            push_all(&mut template, &['{', '{', '{', '{']);
            proof {
                assert(template@ =~= before + seq!['{', '{', '{', '{']);
            }
            at = at + 2;
        } else if starts_with_at(chars.as_slice(), at, &close) {
            push_all(&mut template, &['}', '}', '}', '}']);
            proof {
                assert(template@ =~= before + seq!['}', '}', '}', '}']);
            }
            at = at + 2;
        } else {
            template.push(chars[at]);
            at = at + 1;
        }
    }
    proof {
        assert(template@ =~= woven(source@, binding_views(bindings@)));
    }
    string_of(template.as_slice())
}

/// A binding the round trip holds for: it covers at least one character of `source`, its
/// token is a token path, and `tokens` binds that token to exactly the text it covers.
pub open spec fn faithful(
    source: Seq<char>,
    b: BindingView,
    tokens: Map<Seq<char>, Seq<char>>,
) -> bool {
    &&& 0 <= b.0 < b.1 <= source.len()
    &&& is_path_spec(b.2)
    &&& tokens.contains_key(b.2)
    &&& tokens[b.2] == source.subrange(b.0, b.1)
}

/// `find_close` stops at the first `}}`.
proof fn lemma_find_close_at(s: Seq<char>, from: int, k: int)
    requires
        0 <= from <= k,
        k + 1 < s.len(),
        s[k] == '}' && s[k + 1] == '}',
        forall|j: int| from <= j < k ==> s[j] != '}',
    ensures
        find_close(s, from) == Some(k),
    decreases k - from,
{
    if from < k {
        lemma_find_close_at(s, from + 1, k);
    }
}

/// `{{token}}` at the front of a rendered text substitutes the token and nothing more.
proof fn lemma_render_marker(
    token: Seq<char>,
    rest: Seq<char>,
    line: nat,
    tokens: Map<Seq<char>, Seq<char>>,
)
    requires
        is_path_spec(token),
        tokens.contains_key(token),
    ensures
        render_spec(marker(token) + rest, line, tokens) == (
            tokens[token] + render_spec(rest, line, tokens).0,
            render_spec(rest, line, tokens).1,
        ),
{
    let w = marker(token) + rest;
    let n = token.len() as int;
    assert(w[2] == token[0]);
    assert(!starts_with(w, open_escape())) by {
        if starts_with(w, open_escape()) {
            assert(w.take(4)[2] == w[2]);
        }
    }
    assert(!starts_with(w, close_escape())) by {
        if starts_with(w, close_escape()) {
            assert(w.take(4)[0] == w[0]);
        }
    }
    assert(starts_with(w, seq!['{', '{'])) by {
        assert(w.take(2) =~= seq!['{', '{']);
    }
    assert forall|j: int| 2 <= j < 2 + n implies w[j] != '}' by {
        assert(w[j] == token[j - 2]);
        assert(segment_char(token[j - 2]) || token[j - 2] == '.');
    }
    assert(w[2 + n] == '}' && w[3 + n] == '}');
    lemma_find_close_at(w, 2, 2 + n);
    assert(w.subrange(2, 2 + n) =~= token);
    assert(w.skip(n + 4) =~= rest);
}

/// What a weave from `at` on starts with: the binding it applies there, or the character
/// the source has there.
proof fn lemma_weave_head(source: Seq<char>, ordered: Seq<BindingView>, at: int, next: int)
    requires
        0 <= at < source.len(),
        0 <= next <= ordered.len(),
        forall|i: int| 0 <= i < ordered.len() ==> #[trigger] ordered[i].1 <= source.len(),
        forall|i: int| 0 <= i < ordered.len() ==> 0 <= #[trigger] ordered[i].0 < ordered[i].1,
    ensures
        ({
            let w = weave_spec(source, ordered, at, next);
            ||| (next < ordered.len() && ordered[next].0 == at && w == marker(ordered[next].2)
                + weave_spec(source, ordered, ordered[next].1, next + 1))
            ||| (w.len() > 0 && w[0] == source[at])
        }),
{
    let w = weave_spec(source, ordered, at, next);
    if next < ordered.len() && ordered[next].0 == at {
        assert(0 <= ordered[next].1);
    } else if starts_with(source.skip(at), seq!['{', '{']) {
        assert(source.skip(at).take(2)[0] == source[at]);
    } else if starts_with(source.skip(at), seq!['}', '}']) {
        assert(source.skip(at).take(2)[0] == source[at]);
    } else {
    }
}

/// A character copied into the template renders back as itself and nothing more.
proof fn lemma_render_copied(
    source: Seq<char>,
    ordered: Seq<BindingView>,
    at: int,
    next: int,
    line: nat,
    tokens: Map<Seq<char>, Seq<char>>,
)
    requires
        0 <= at < source.len(),
        0 <= next <= ordered.len(),
        forall|i: int| 0 <= i < ordered.len() ==> faithful(source, #[trigger] ordered[i], tokens),
        !(next < ordered.len() && ordered[next].0 == at),
        !starts_with(source.skip(at), seq!['{', '{']),
        !starts_with(source.skip(at), seq!['}', '}']),
    ensures
        ({
            let c = source[at];
            let q = weave_spec(source, ordered, at + 1, next);
            let line2 = if c == '\n' { line + 1 } else { line };
            render_spec(seq![c] + q, line, tokens) == (
                seq![c] + render_spec(q, line2, tokens).0,
                render_spec(q, line2, tokens).1,
            )
        }),
{
    let c = source[at];
    let q = weave_spec(source, ordered, at + 1, next);
    let w = seq![c] + q;
    assert(w[0] == c);
    assert(w.skip(1) =~= q);
    // What follows the copied character cannot join it into an escape or a marker.
    let joins = c == '{' || c == '}';
    if joins && at + 1 < source.len() {
        assert forall|i: int| 0 <= i < ordered.len() implies #[trigger] ordered[i].1
            <= source.len() && 0 <= ordered[i].0 < ordered[i].1 by {
            assert(faithful(source, ordered[i], tokens));
        }
        lemma_weave_head(source, ordered, at + 1, next);
        assert(source.skip(at)[1] == source[at + 1]);
        if source[at + 1] == c {
            assert(source.skip(at).take(2) =~= seq![c, c]);
        }
    }
    assert(!starts_with(w, open_escape())) by {
        if starts_with(w, open_escape()) {
            assert(w.take(4)[0] == w[0]);
            assert(w.take(4)[1] == w[1]);
            assert(w.take(4)[3] == w[3]);
            if next < ordered.len() && ordered[next].0 == at + 1 && q == marker(ordered[next].2)
                + weave_spec(source, ordered, ordered[next].1, next + 1) {
                assert(faithful(source, ordered[next], tokens));
                assert(w[3] == ordered[next].2[0]);
            }
        }
    }
    assert(!starts_with(w, close_escape())) by {
        if starts_with(w, close_escape()) {
            assert(w.take(4)[0] == w[0]);
            assert(w.take(4)[1] == w[1]);
        }
    }
    assert(token_at(w) is None) by {
        if starts_with(w, seq!['{', '{']) {
            assert(w.take(2)[0] == w[0]);
            assert(w.take(2)[1] == w[1]);
            assert(c == '{');
            let b = ordered[next];
            assert(next < ordered.len() && b.0 == at + 1 && q == marker(b.2) + weave_spec(
                source,
                ordered,
                b.1,
                next + 1,
            ));
            assert(faithful(source, b, tokens));
            let n = b.2.len() as int;
            assert forall|j: int| 2 <= j < 3 + n implies w[j] != '}' by {
                if j > 2 {
                    assert(w[j] == b.2[j - 3]);
                    assert(segment_char(b.2[j - 3]) || b.2[j - 3] == '.');
                }
            }
            lemma_find_close_at(w, 2, 3 + n);
            assert(w.subrange(2, 3 + n)[0] == '{');
        }
    }
}

/// Weaving, then rendering with tokens bound to the text they replaced, gives back the
/// source from `at` on, and finds no undefined token.
proof fn lemma_weave_renders_from(
    source: Seq<char>,
    ordered: Seq<BindingView>,
    at: int,
    next: int,
    line: nat,
    tokens: Map<Seq<char>, Seq<char>>,
)
    requires
        0 <= at <= source.len(),
        0 <= next <= ordered.len(),
        forall|i: int| 0 <= i < ordered.len() ==> faithful(source, #[trigger] ordered[i], tokens),
    ensures
        render_spec(weave_spec(source, ordered, at, next), line, tokens).0 == source.skip(at),
        render_spec(weave_spec(source, ordered, at, next), line, tokens).1.len() == 0,
    decreases ordered.len() - next, source.len() - at,
{
    let w = weave_spec(source, ordered, at, next);
    if at == source.len() {
        assert(source.skip(at) =~= Seq::<char>::empty());
    } else if next < ordered.len() && ordered[next].0 == at {
        let b = ordered[next];
        assert(faithful(source, b, tokens));
        lemma_weave_renders_from(source, ordered, b.1, next + 1, line, tokens);
        lemma_render_marker(b.2, weave_spec(source, ordered, b.1, next + 1), line, tokens);
        assert(source.skip(at) =~= source.subrange(at, b.1) + source.skip(b.1));
    } else if starts_with(source.skip(at), seq!['{', '{']) {
        let q = weave_spec(source, ordered, at + 2, next);
        lemma_weave_renders_from(source, ordered, at + 2, next, line, tokens);
        assert(w == seq!['{', '{', '{', '{'] + q);
        assert(starts_with(w, open_escape())) by {
            assert(w.take(4) =~= open_escape());
        }
        assert(w.skip(4) =~= q);
        assert(source.skip(at) =~= seq!['{', '{'] + source.skip(at + 2)) by {
            assert(source.skip(at).take(2) =~= seq!['{', '{']);
            assert(source.skip(at)[0] == source.skip(at).take(2)[0]);
            assert(source.skip(at)[1] == source.skip(at).take(2)[1]);
        }
    } else if starts_with(source.skip(at), seq!['}', '}']) {
        let q = weave_spec(source, ordered, at + 2, next);
        lemma_weave_renders_from(source, ordered, at + 2, next, line, tokens);
        assert(w == seq!['}', '}', '}', '}'] + q);
        assert(!starts_with(w, open_escape())) by {
            if starts_with(w, open_escape()) {
                assert(w.take(4)[0] == w[0]);
            }
        }
        assert(starts_with(w, close_escape())) by {
            assert(w.take(4) =~= close_escape());
        }
        assert(w.skip(4) =~= q);
        assert(source.skip(at) =~= seq!['}', '}'] + source.skip(at + 2)) by {
            assert(source.skip(at).take(2) =~= seq!['}', '}']);
            assert(source.skip(at)[0] == source.skip(at).take(2)[0]);
            assert(source.skip(at)[1] == source.skip(at).take(2)[1]);
        }
    } else {
        let c = source[at];
        let line2 = if c == '\n' { line + 1 } else { line };
        lemma_weave_renders_from(source, ordered, at + 1, next, line2, tokens);
        lemma_render_copied(source, ordered, at, next, line, tokens);
        assert(source.skip(at) =~= seq![c] + source.skip(at + 1));
    }
}

/// The round trip: a template woven from `source`, rendered against tokens that hold the
/// text each binding replaced, is `source` again, with no token undefined. With no bindings
/// at all, it holds whatever the tokens are.
pub proof fn lemma_weave_renders_back(
    source: Seq<char>,
    bindings: Seq<BindingView>,
    tokens: Map<Seq<char>, Seq<char>>,
)
    requires
        forall|i: int| 0 <= i < bindings.len() ==> faithful(source, #[trigger] bindings[i], tokens),
    ensures
        render_spec(woven(source, bindings), 1, tokens).0 == source,
        render_spec(woven(source, bindings), 1, tokens).1.len() == 0,
{
    let ordered = sort_by_start(bindings);
    lemma_sort_members(bindings);
    assert forall|i: int| 0 <= i < ordered.len() implies faithful(source, #[trigger] ordered[i], tokens) by {
        let j = choose|j: int| 0 <= j < bindings.len() && bindings[j] == ordered[i];
        assert(faithful(source, bindings[j], tokens));
    }
    lemma_weave_renders_from(source, ordered, 0, 0, 1, tokens);
    assert(source.skip(0) =~= source);
}

} // verus!
