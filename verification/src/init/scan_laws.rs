//! What a scan promises of the text it read: every colour is a distinct lowercase `#rrggbb`,
//! listed in the order it first appears, each occurrence is exactly that text in the source,
//! and nothing found, colour or unhandled notation, overlaps anything else found.

use vstd::prelude::*;

use crate::init::scan::{
    add_colour, colour_index, digit_run, escapes, find_from, first_held, first_opening, found_spec, functions, hex_run,
    holds_at, indexed_words, lower_ascii, one_line, opening, param_run, scan_from, scan_spec, selectors, FoundView, ScanView,
};
use crate::text::{count_char, is_digit, lemma_line_across, lemma_line_step, line_at};
use crate::init::weave::{faithful, lemma_weave_renders_back, woven, BindingView};
use crate::template::render_spec;
use crate::theme::{is_hex_char, is_hex_literal};
use crate::token::is_path_spec;

verus! {

/// A colour as a theme stores it: `#` and six hex digits, none of them uppercase.
pub open spec fn lower_hex(v: Seq<char>) -> bool {
    &&& is_hex_literal(v)
    &&& forall|i: int| 1 <= i < 7 ==> !('A' <= #[trigger] v[i] && v[i] <= 'Z')
}

/// Two ranges of the source share no character.
pub open spec fn apart(a: int, b: int, c: int, d: int) -> bool {
    b <= c || d <= a
}

/// Each colour is a lowercase `#rrggbb` with at least one occurrence.
pub open spec fn colours_formed(colours: Seq<(Seq<char>, Seq<(nat, nat, nat)>)>) -> bool {
    forall|i: int| 0 <= i < colours.len() ==> lower_hex(#[trigger] colours[i].0) && colours[i].1.len() > 0
}

/// No value is listed twice, and the colours come in the order each first appears.
pub open spec fn colours_first_seen(colours: Seq<(Seq<char>, Seq<(nat, nat, nat)>)>) -> bool {
    forall|i: int, j: int|
        0 <= i < j < colours.len() ==> #[trigger] colours[i].0 != #[trigger] colours[j].0 && colours[i].1[0].1
            < colours[j].1[0].1
}

/// Every occurrence lies before `bound` and is exactly its colour's value in `s`.
pub open spec fn occurrences_exact(s: Seq<char>, colours: Seq<(Seq<char>, Seq<(nat, nat, nat)>)>, bound: int) -> bool {
    forall|i: int, k: int|
        0 <= i < colours.len() && 0 <= k < colours[i].1.len() ==> (#[trigger] colours[i].1[k]).1 < colours[i].1[k].2
            <= bound && s.subrange(colours[i].1[k].1 as int, colours[i].1[k].2 as int) == colours[i].0
}

/// A colour's occurrences come in source order.
pub open spec fn occurrences_in_order(colours: Seq<(Seq<char>, Seq<(nat, nat, nat)>)>) -> bool {
    forall|i: int, k: int, l: int|
        0 <= i < colours.len() && 0 <= k < l < colours[i].1.len() ==> #[trigger] colours[i].1[k].2
            <= #[trigger] colours[i].1[l].1
}

/// No two occurrences, of one colour or two, overlap.
pub open spec fn occurrences_apart(colours: Seq<(Seq<char>, Seq<(nat, nat, nat)>)>) -> bool {
    forall|i: int, k: int, j: int, l: int|
        0 <= i < colours.len() && 0 <= k < colours[i].1.len() && 0 <= j < colours.len() && 0 <= l
            < colours[j].1.len() && (i != j || k != l) ==> apart(
            #[trigger] colours[i].1[k].1 as int,
            colours[i].1[k].2 as int,
            #[trigger] colours[j].1[l].1 as int,
            colours[j].1[l].2 as int,
        )
}

/// What a scan of `s` found, read up to `bound`, promises of its colours.
pub open spec fn colours_ok(s: Seq<char>, colours: Seq<(Seq<char>, Seq<(nat, nat, nat)>)>, bound: int) -> bool {
    &&& colours_formed(colours)
    &&& colours_first_seen(colours)
    &&& occurrences_exact(s, colours, bound)
    &&& occurrences_in_order(colours)
    &&& occurrences_apart(colours)
}

/// The unhandled notations stand at `ps`, in source order: each is exactly that text of the
/// source, read up to `bound`, and none overlaps another or a colour occurrence.
pub open spec fn unhandled_at(
    s: Seq<char>,
    unhandled: Seq<(nat, Seq<char>, Seq<char>)>,
    ps: Seq<int>,
    colours: Seq<(Seq<char>, Seq<(nat, nat, nat)>)>,
    bound: int,
) -> bool {
    &&& ps.len() == unhandled.len()
    &&& forall|k: int|
        0 <= k < ps.len() ==> 0 <= #[trigger] ps[k] && unhandled[k].1.len() > 0 && ps[k] + unhandled[k].1.len() <= bound
            && s.subrange(ps[k], ps[k] + unhandled[k].1.len()) == unhandled[k].1
    &&& forall|k: int, l: int| 0 <= k < l < ps.len() ==> #[trigger] ps[k] + unhandled[k].1.len() <= #[trigger] ps[l]
    &&& forall|k: int, i: int, m: int|
        0 <= k < ps.len() && 0 <= i < colours.len() && 0 <= m < colours[i].1.len() ==> apart(
            #[trigger] ps[k],
            ps[k] + unhandled[k].1.len(),
            #[trigger] colours[i].1[m].1 as int,
            colours[i].1[m].2 as int,
        )
}

proof fn lemma_hex_run(s: Seq<char>, from: int, k: int)
    requires
        0 <= from,
        0 <= k < hex_run(s, from),
    ensures
        from + k < s.len(),
        is_hex_char(s[from + k]),
    decreases k,
{
    if k > 0 {
        lemma_hex_run(s, from + 1, k - 1);
    }
}

proof fn lemma_colour_index(colours: Seq<(Seq<char>, Seq<(nat, nat, nat)>)>, value: Seq<char>)
    ensures
        colour_index(colours, value) matches Some(i) ==> 0 <= i < colours.len() && colours[i].0 == value,
        colour_index(colours, value) is None ==> forall|i: int| 0 <= i < colours.len() ==> #[trigger] colours[i].0 != value,
    decreases colours.len(),
{
    if colours.len() > 0 {
        lemma_colour_index(colours.drop_last(), value);
        assert forall|i: int| 0 <= i < colours.len() - 1 implies colours.drop_last()[i] == #[trigger] colours[i] by {}
    }
}

/// A colour found at `at` is a lowercase `#rrggbb` ending at `end`.
proof fn lemma_found_colour(s: Seq<char>, at: int, end: int)
    requires
        0 <= at < s.len(),
        found_spec(s, at) == Some(FoundView::Colour { end }),
        at < end <= s.len(),
    ensures
        end == at + 7,
        lower_hex(s.subrange(at, end)),
{
    let v = s.subrange(at, end);
    assert forall|i: int| 1 <= i < 7 implies #[trigger] is_hex_char(v[i]) by {
        lemma_hex_run(s, at + 1, i - 1);
        assert(v[i] == s[at + i]);
    }
    assert forall|i: int| 1 <= i < 7 implies !('A' <= #[trigger] v[i] && v[i] <= 'Z') by {
        assert(v[i] == s[at + i]);
    }
}

proof fn lemma_add_colour(
    s: Seq<char>,
    colours: Seq<(Seq<char>, Seq<(nat, nat, nat)>)>,
    unhandled: Seq<(nat, Seq<char>, Seq<char>)>,
    ps: Seq<int>,
    line: nat,
    at: int,
    end: int,
)
    requires
        0 <= at < end <= s.len(),
        lower_hex(s.subrange(at, end)),
        colours_ok(s, colours, at),
        unhandled_at(s, unhandled, ps, colours, at),
    ensures
        colours_ok(s, add_colour(colours, s.subrange(at, end), (line, at as nat, end as nat)), end),
        unhandled_at(s, unhandled, ps, add_colour(colours, s.subrange(at, end), (line, at as nat, end as nat)), end),
{
    let v = s.subrange(at, end);
    let o = (line, at as nat, end as nat);
    let after = add_colour(colours, v, o);
    lemma_colour_index(colours, v);
    match colour_index(colours, v) {
        Some(x) => {
            assert(after == colours.update(x, (colours[x].0, colours[x].1.push(o))));
            assert forall|i: int, k: int| 0 <= i < after.len() && 0 <= k < after[i].1.len() implies
                (#[trigger] after[i].1[k] == colours[i].1[k] && (i != x || k < colours[x].1.len())) || (i == x && k
                    == colours[x].1.len() && after[i].1[k] == o) by {
                if i == x && k < colours[x].1.len() {
                    assert(after[i].1 == colours[x].1.push(o));
                } else if i == x {
                    assert(after[i].1 == colours[x].1.push(o));
                }
            }
            assert(colours_formed(after)) by {
assert forall|i: int| 0 <= i < after.len() implies lower_hex(#[trigger] after[i].0) && after[i].1.len() > 0 by {
                if i == x {
                    assert(after[i].0 == colours[x].0);
                } else {
                    assert(after[i] == colours[i]);
                }
            }
            }
            assert(colours_first_seen(after)) by {
assert forall|i: int, j: int| 0 <= i < j < after.len() implies #[trigger] after[i].0 != #[trigger] after[j].0
                && after[i].1[0].1 < after[j].1[0].1 by {
                assert(after[i].0 == colours[i].0 && after[j].0 == colours[j].0);
                assert(after[i].1[0] == colours[i].1[0] && after[j].1[0] == colours[j].1[0]);
            }
            }
            assert(occurrences_exact(s, after, end)) by {
assert forall|i: int, k: int| 0 <= i < after.len() && 0 <= k < after[i].1.len() implies (#[trigger] after[i].1[k]).1
                < after[i].1[k].2 <= end && s.subrange(after[i].1[k].1 as int, after[i].1[k].2 as int) == after[i].0 by {
                assert(after[i].0 == colours[i].0);
                if i != x || k < colours[x].1.len() {
                    assert(after[i].1[k] == colours[i].1[k]);
                }
            }
            }
            assert(occurrences_in_order(after)) by {
assert forall|i: int, k: int, l: int| 0 <= i < after.len() && 0 <= k < l < after[i].1.len() implies
                #[trigger] after[i].1[k].2 <= #[trigger] after[i].1[l].1 by {
                if i != x || l < colours[x].1.len() {
                    assert(after[i].1[k] == colours[i].1[k] && after[i].1[l] == colours[i].1[l]);
                } else {
                    assert(after[i].1[k] == colours[i].1[k]);
                }
            }
            }
            assert(occurrences_apart(after)) by {
assert forall|i: int, k: int, j: int, l: int|
                0 <= i < after.len() && 0 <= k < after[i].1.len() && 0 <= j < after.len() && 0 <= l < after[j].1.len()
                    && (i != j || k != l) implies apart(
                #[trigger] after[i].1[k].1 as int,
                after[i].1[k].2 as int,
                #[trigger] after[j].1[l].1 as int,
                after[j].1[l].2 as int,
            ) by {
                let new_i = i == x && k == colours[x].1.len();
                let new_j = j == x && l == colours[x].1.len();
                if !new_i {
                    assert(after[i].1[k] == colours[i].1[k]);
                }
                if !new_j {
                    assert(after[j].1[l] == colours[j].1[l]);
                }
            }
            }
            assert forall|k: int, i: int, m: int|
                0 <= k < ps.len() && 0 <= i < after.len() && 0 <= m < after[i].1.len() implies apart(
                #[trigger] ps[k],
                ps[k] + unhandled[k].1.len(),
                #[trigger] after[i].1[m].1 as int,
                after[i].1[m].2 as int,
            ) by {
                if i != x || m < colours[x].1.len() {
                    assert(after[i].1[m] == colours[i].1[m]);
                }
            }
            assert(colours_ok(s, after, end));
        },
        None => {
            assert(after == colours.push((v, seq![o])));
            let n = colours.len() as int;
            assert(colours_formed(after)) by {
assert forall|i: int| 0 <= i < after.len() implies lower_hex(#[trigger] after[i].0) && after[i].1.len() > 0 by {
                if i < n {
                    assert(after[i] == colours[i]);
                }
            }
            }
            assert(colours_first_seen(after)) by {
assert forall|i: int, j: int| 0 <= i < j < after.len() implies #[trigger] after[i].0 != #[trigger] after[j].0
                && after[i].1[0].1 < after[j].1[0].1 by {
                assert(after[i] == colours[i]);
                if j < n {
                    assert(after[j] == colours[j]);
                } else {
                    assert(colours[i].1[0].2 <= at);
                }
            }
            }
            assert(occurrences_exact(s, after, end)) by {
assert forall|i: int, k: int| 0 <= i < after.len() && 0 <= k < after[i].1.len() implies (#[trigger] after[i].1[k]).1
                < after[i].1[k].2 <= end && s.subrange(after[i].1[k].1 as int, after[i].1[k].2 as int) == after[i].0 by {
                if i < n {
                    assert(after[i] == colours[i]);
                }
            }
            }
            assert(occurrences_in_order(after)) by {
assert forall|i: int, k: int, l: int| 0 <= i < after.len() && 0 <= k < l < after[i].1.len() implies
                #[trigger] after[i].1[k].2 <= #[trigger] after[i].1[l].1 by {
                assert(after[i] == colours[i]);
            }
            }
            assert(occurrences_apart(after)) by {
assert forall|i: int, k: int, j: int, l: int|
                0 <= i < after.len() && 0 <= k < after[i].1.len() && 0 <= j < after.len() && 0 <= l < after[j].1.len()
                    && (i != j || k != l) implies apart(
                #[trigger] after[i].1[k].1 as int,
                after[i].1[k].2 as int,
                #[trigger] after[j].1[l].1 as int,
                after[j].1[l].2 as int,
            ) by {
                if i < n {
                    assert(after[i] == colours[i]);
                }
                if j < n {
                    assert(after[j] == colours[j]);
                }
            }
            }
            assert forall|k: int, i: int, m: int|
                0 <= k < ps.len() && 0 <= i < after.len() && 0 <= m < after[i].1.len() implies apart(
                #[trigger] ps[k],
                ps[k] + unhandled[k].1.len(),
                #[trigger] after[i].1[m].1 as int,
                after[i].1[m].2 as int,
            ) by {
                if i < n {
                    assert(after[i] == colours[i]);
                }
            }
            assert(colours_ok(s, after, end));
        },
    }
}

proof fn lemma_push_unhandled(
    s: Seq<char>,
    colours: Seq<(Seq<char>, Seq<(nat, nat, nat)>)>,
    unhandled: Seq<(nat, Seq<char>, Seq<char>)>,
    ps: Seq<int>,
    item: (nat, Seq<char>, Seq<char>),
    at: int,
    end: int,
)
    requires
        0 <= at < end <= s.len(),
        item.1 == s.subrange(at, end),
        colours_ok(s, colours, at),
        unhandled_at(s, unhandled, ps, colours, at),
    ensures
        colours_ok(s, colours, end),
        unhandled_at(s, unhandled.push(item), ps.push(at), colours, end),
{
    let u = unhandled.push(item);
    let q = ps.push(at);
    assert forall|k: int| 0 <= k < q.len() implies 0 <= #[trigger] q[k] && u[k].1.len() > 0 && q[k] + u[k].1.len() <= end
        && s.subrange(q[k], q[k] + u[k].1.len()) == u[k].1 by {
        if k < ps.len() {
            assert(q[k] == ps[k] && u[k] == unhandled[k]);
        }
    }
    assert forall|k: int, l: int| 0 <= k < l < q.len() implies #[trigger] q[k] + u[k].1.len() <= #[trigger] q[l] by {
        assert(q[k] == ps[k] && u[k] == unhandled[k]);
        if l < ps.len() {
            assert(q[l] == ps[l]);
        }
    }
    assert forall|k: int, i: int, m: int|
        0 <= k < q.len() && 0 <= i < colours.len() && 0 <= m < colours[i].1.len() implies apart(
        #[trigger] q[k],
        q[k] + u[k].1.len(),
        #[trigger] colours[i].1[m].1 as int,
        colours[i].1[m].2 as int,
    ) by {
        if k < ps.len() {
            assert(q[k] == ps[k] && u[k] == unhandled[k]);
        }
    }
}

/// Every occurrence's line is the line its start is on.
pub open spec fn occurrence_lines(s: Seq<char>, colours: Seq<(Seq<char>, Seq<(nat, nat, nat)>)>) -> bool {
    forall|i: int, k: int|
        0 <= i < colours.len() && 0 <= k < colours[i].1.len() ==> (#[trigger] colours[i].1[k]).0 == line_at(
            s,
            colours[i].1[k].1 as int,
        )
}

/// Every unhandled notation's line is the line its position in `ps` is on.
pub open spec fn unhandled_lines(s: Seq<char>, unhandled: Seq<(nat, Seq<char>, Seq<char>)>, ps: Seq<int>) -> bool {
    forall|k: int| 0 <= k < ps.len() && k < unhandled.len() ==> (#[trigger] unhandled[k]).0 == line_at(s, ps[k])
}

proof fn lemma_add_colour_lines(
    s: Seq<char>,
    colours: Seq<(Seq<char>, Seq<(nat, nat, nat)>)>,
    v: Seq<char>,
    o: (nat, nat, nat),
)
    requires
        occurrence_lines(s, colours),
        o.0 == line_at(s, o.1 as int),
    ensures
        occurrence_lines(s, add_colour(colours, v, o)),
{
    let after = add_colour(colours, v, o);
    lemma_colour_index(colours, v);
    match colour_index(colours, v) {
        Some(x) => {
            assert forall|i: int, k: int| 0 <= i < after.len() && 0 <= k < after[i].1.len() implies (#[trigger] after[i].1[k]).0
                == line_at(s, after[i].1[k].1 as int) by {
                if i == x {
                    assert(after[i].1 == colours[x].1.push(o));
                    if k < colours[x].1.len() {
                        assert(after[i].1[k] == colours[x].1[k]);
                    }
                } else {
                    assert(after[i] == colours[i]);
                }
            }
        },
        None => {
            assert forall|i: int, k: int| 0 <= i < after.len() && 0 <= k < after[i].1.len() implies (#[trigger] after[i].1[k]).0
                == line_at(s, after[i].1[k].1 as int) by {
                if i < colours.len() {
                    assert(after[i] == colours[i]);
                }
            }
        },
    }
}

proof fn lemma_scan_from(s: Seq<char>, at: int, line: nat, acc: ScanView, ps: Seq<int>) -> (qs: Seq<int>)
    requires
        0 <= at <= s.len(),
        colours_ok(s, acc.colours, at),
        unhandled_at(s, acc.unhandled, ps, acc.colours, at),
        line == line_at(s, at),
        occurrence_lines(s, acc.colours),
        unhandled_lines(s, acc.unhandled, ps),
    ensures
        colours_ok(s, scan_from(s, at, line, acc).colours, s.len() as int),
        unhandled_at(s, scan_from(s, at, line, acc).unhandled, qs, scan_from(s, at, line, acc).colours, s.len() as int),
        occurrence_lines(s, scan_from(s, at, line, acc).colours),
        unhandled_lines(s, scan_from(s, at, line, acc).unhandled, qs),
    decreases s.len() - at,
{
    if at >= s.len() {
        ps
    } else if s[at] == '\n' {
        lemma_line_step(s, at);
        lemma_scan_from(s, at + 1, line + 1, acc, ps)
    } else {
        lemma_found_one_line(s, at);
        lemma_line_step(s, at);
        match found_spec(s, at) {
            Some(FoundView::Colour { end }) => if at < end <= s.len() {
                lemma_found_colour(s, at, end);
                lemma_add_colour(s, acc.colours, acc.unhandled, ps, line, at, end);
                lemma_line_across(s, at, end);
                lemma_add_colour_lines(s, acc.colours, s.subrange(at, end), (line, at as nat, end as nat));
                let next = ScanView {
                    colours: add_colour(acc.colours, s.subrange(at, end), (line, at as nat, end as nat)),
                    ..acc
                };
                lemma_scan_from(s, end, line, next, ps)
            } else {
                ps
            },
            Some(FoundView::Unhandled { end, why }) => if at < end <= s.len() {
                let item = (line, s.subrange(at, end), why);
                lemma_push_unhandled(s, acc.colours, acc.unhandled, ps, item, at, end);
                lemma_line_across(s, at, end);
                let u = acc.unhandled.push(item);
                let q = ps.push(at);
                assert forall|k: int| 0 <= k < q.len() && k < u.len() implies (#[trigger] u[k]).0 == line_at(s, q[k]) by {
                    if k < ps.len() {
                        assert(u[k] == acc.unhandled[k] && q[k] == ps[k]);
                    }
                }
                lemma_scan_from(s, end, line, ScanView { unhandled: acc.unhandled.push(item), ..acc }, ps.push(at))
            } else {
                ps
            },
            None => lemma_scan_from(s, at + 1, line, acc, ps),
        }
    }
}

/// What a scan of `source` finds: the colours are distinct lowercase `#rrggbb` values, listed
/// in the order each first appears; every occurrence of a colour is exactly that value in the
/// source, and a colour's occurrences come in source order; the unhandled notations stand, in
/// source order, at places where the source holds exactly their text; nothing found overlaps
/// anything else found; and each is reported on the line it starts on, one more than the
/// newlines before it.
pub proof fn lemma_scan_finds(source: Seq<char>) -> (positions: Seq<int>)
    ensures
        colours_ok(source, scan_spec(source).colours, source.len() as int),
        unhandled_at(source, scan_spec(source).unhandled, positions, scan_spec(source).colours, source.len() as int),
        occurrence_lines(source, scan_spec(source).colours),
        unhandled_lines(source, scan_spec(source).unhandled, positions),
{
    assert(source.take(0) =~= Seq::<char>::empty());
    let empty = ScanView { colours: Seq::empty(), unhandled: Seq::empty() };
    lemma_scan_from(source, 0, 1, empty, Seq::empty())
}

/// The binding `b` replaces occurrence `k` of colour `i` of the scan of `source` with a token
/// that `tokens` gives that colour's value.
pub open spec fn binds_scanned(source: Seq<char>, b: BindingView, tokens: Map<Seq<char>, Seq<char>>) -> bool {
    let colours = scan_spec(source).colours;
    exists|i: int, k: int|
        0 <= i < colours.len() && 0 <= k < colours[i].1.len() && b.0 == (#[trigger] colours[i].1[k]).1 && b.1
            == colours[i].1[k].2 && is_path_spec(b.2) && tokens.contains_key(b.2) && tokens[b.2] == colours[i].0
}

/// The round trip on what a scan found: bind any of the occurrences the scan of `source`
/// reports to tokens that hold their colour's value, weave, and rendering the template
/// against those tokens gives `source` back, with nothing undefined.
pub proof fn lemma_scan_weaves_back(source: Seq<char>, bindings: Seq<BindingView>, tokens: Map<Seq<char>, Seq<char>>)
    requires
        forall|j: int| 0 <= j < bindings.len() ==> binds_scanned(source, #[trigger] bindings[j], tokens),
    ensures
        render_spec(woven(source, bindings), 1, tokens).0 == source,
        render_spec(woven(source, bindings), 1, tokens).1.len() == 0,
{
    let _ = lemma_scan_finds(source);
    let colours = scan_spec(source).colours;
    assert forall|j: int| 0 <= j < bindings.len() implies faithful(source, #[trigger] bindings[j], tokens) by {
        assert(binds_scanned(source, bindings[j], tokens));
        let (i, k) = choose|i: int, k: int|
            0 <= i < colours.len() && 0 <= k < colours[i].1.len() && bindings[j].0 == (#[trigger] colours[i].1[k]).1
                && bindings[j].1 == colours[i].1[k].2 && is_path_spec(bindings[j].2) && tokens.contains_key(bindings[j].2)
                && tokens[bindings[j].2] == colours[i].0;
        assert(occurrences_exact(source, colours, source.len() as int));
        assert(colours[i].1[k].1 < colours[i].1[k].2 <= source.len());
    }
    lemma_weave_renders_back(source, bindings, tokens);
}

proof fn lemma_runs(s: Seq<char>, from: int, k: int)
    requires
        0 <= from,
        0 <= k,
    ensures
        k < hex_run(s, from) ==> from + k < s.len() && s[from + k] != '\n',
        k < digit_run(s, from) ==> from + k < s.len() && is_digit(s[from + k]),
        k < param_run(s, from) ==> from + k < s.len() && s[from + k] != '\n',
    decreases k,
{
    if k > 0 {
        lemma_runs(s, from + 1, k - 1);
    }
}

proof fn lemma_first_opening(s: Seq<char>, at: int, prefixes: Seq<Seq<char>>)
    ensures
        first_opening(s, at, prefixes) matches Some(p) ==> opening(s, at, p) && prefixes.contains(p),
    decreases prefixes.len(),
{
    if prefixes.len() > 0 && !opening(s, at, prefixes[0]) {
        lemma_first_opening(s, at, prefixes.drop_first());
        if let Some(p) = first_opening(s, at, prefixes.drop_first()) {
            let j = choose|j: int| 0 <= j < prefixes.drop_first().len() && prefixes.drop_first()[j] == p;
            assert(prefixes[j + 1] == p);
        }
    } else if prefixes.len() > 0 {
        assert(prefixes[0] == prefixes[0]);
    }
}

proof fn lemma_first_held(s: Seq<char>, at: int, prefixes: Seq<Seq<char>>)
    ensures
        first_held(s, at, prefixes) matches Some(p) ==> holds_at(s, at, p) && prefixes.contains(p),
    decreases prefixes.len(),
{
    if prefixes.len() > 0 && !holds_at(s, at, prefixes[0]) {
        lemma_first_held(s, at, prefixes.drop_first());
        if let Some(p) = first_held(s, at, prefixes.drop_first()) {
            let j = choose|j: int| 0 <= j < prefixes.drop_first().len() && prefixes.drop_first()[j] == p;
            assert(prefixes[j + 1] == p);
        }
    } else if prefixes.len() > 0 {
        assert(prefixes[0] == prefixes[0]);
    }
}

proof fn lemma_find_from(s: Seq<char>, from: int, c: char)
    ensures
        find_from(s, from, c) matches Some(x) ==> from <= x < s.len() && s[x] == c,
    decreases s.len() - from,
{
    if 0 <= from < s.len() && s[from] != c {
        lemma_find_from(s, from + 1, c);
    }
}

/// No word of the list holds a newline.
pub open spec fn newline_free(words: Seq<Seq<char>>) -> bool {
    forall|j: int, k: int| 0 <= j < words.len() && 0 <= k < words[j].len() ==> #[trigger] words[j][k] != '\n'
}

proof fn lemma_lists_newline_free()
    ensures
        newline_free(functions()),
        newline_free(indexed_words()),
        newline_free(escapes()),
{
    reveal_strlit("rgb(");
    reveal_strlit("rgba(");
    reveal_strlit("hsl(");
    reveal_strlit("hsla(");
    reveal_strlit("colour");
    reveal_strlit("color");
    reveal_strlit("\\033[");
    reveal_strlit("\\e[");
    reveal_strlit("\\x1b[");
    reveal_strlit("\\x1B[");
    reveal_strlit("\u{1b}[");
}

/// A word matched at `at`, ignoring case, holds no newline there.
proof fn lemma_opening_one_line(s: Seq<char>, at: int, words: Seq<Seq<char>>, p: Seq<char>)
    requires
        0 <= at,
        opening(s, at, p),
        words.contains(p),
        newline_free(words),
    ensures
        one_line(s, at, at + p.len()),
{
    let j = choose|j: int| 0 <= j < words.len() && words[j] == p;
    assert forall|k: int| at <= k < at + p.len() implies #[trigger] s[k] != '\n' by {
        assert(lower_ascii(s[at + (k - at)]) == lower_ascii(p[k - at]));
        assert(words[j][k - at] != '\n');
    }
}

/// Nothing a scan finds spans a newline.
proof fn lemma_found_one_line(s: Seq<char>, at: int)
    requires
        0 <= at < s.len(),
    ensures
        found_spec(s, at) matches Some(FoundView::Colour { end }) ==> at < end <= s.len() ==> one_line(s, at, end),
        found_spec(s, at) matches Some(FoundView::Unhandled { end, .. }) ==> at < end <= s.len() ==> one_line(s, at, end),
{
    lemma_lists_newline_free();
    let c = s[at];
    if c == '#' {
        let n = hex_run(s, at + 1);
        assert forall|k: int| at <= k < at + 1 + n implies #[trigger] s[k] != '\n' by {
            if k > at {
                lemma_runs(s, at + 1, k - at - 1);
            }
        }
    } else if c == '0' {
        let n = hex_run(s, at + 2);
        if at + 1 < s.len() && (s[at + 1] == 'x' || s[at + 1] == 'X') {
            assert forall|k: int| at <= k < at + 2 + n && k < s.len() implies #[trigger] s[k] != '\n' by {
                if k > at + 1 {
                    lemma_runs(s, at + 2, k - at - 2);
                }
            }
        }
    } else if c == 'r' || c == 'R' || c == 'h' || c == 'H' {
        lemma_first_opening(s, at, functions());
        if let Some(open) = first_opening(s, at, functions()) {
            lemma_opening_one_line(s, at, functions(), open);
            lemma_find_from(s, at + open.len(), ')');
            if let Some(close) = find_from(s, at + open.len(), ')') {
                if one_line(s, at + open.len(), close) {
                    assert forall|k: int| at <= k < close + 1 implies #[trigger] s[k] != '\n' by {
                        if k < at + open.len() {
                            assert(one_line(s, at, at + open.len()));
                        }
                    }
                }
            }
        }
    } else if c == 'c' || c == 'C' {
        lemma_first_opening(s, at, indexed_words());
        if let Some(word) = first_opening(s, at, indexed_words()) {
            lemma_opening_one_line(s, at, indexed_words(), word);
            let from = at + word.len();
            let m = digit_run(s, from);
            assert forall|k: int| at <= k < from + m implies #[trigger] s[k] != '\n' by {
                if k >= from {
                    lemma_runs(s, from, k - from);
                } else {
                    assert(one_line(s, at, from));
                }
            }
        }
    } else if c == '\\' || c == '\u{1b}' {
        lemma_first_held(s, at, escapes());
        if let Some(open) = first_held(s, at, escapes()) {
            let j = choose|j: int| 0 <= j < escapes().len() && escapes()[j] == open;
            let from = at + open.len();
            let count = param_run(s, from);
            assert forall|k: int| at <= k < from + count + 1 && k < s.len() && (k < from + count || s[k] == 'm') implies #[trigger] s[k] != '\n' by {
                if k < from {
                    assert(s.skip(at).take(open.len() as int)[k - at] == open[k - at]);
                    assert(escapes()[j][k - at] != '\n');
                } else if k < from + count {
                    lemma_runs(s, from, k - from);
                }
            }
        }
    } else if c == '3' || c == '4' {
        let n = param_run(s, at);
        assert forall|k: int| at <= k < at + n implies #[trigger] s[k] != '\n' by {
            lemma_runs(s, at, k - at);
        }
    } else if c == '"' || c == '\'' {
        lemma_find_from(s, at + 1, c);
    }
}

} // verus!
