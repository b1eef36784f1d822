//! What can be wrong with a theme file.

use vstd::prelude::*;

use crate::text::{decimal, decimal_chars, push_all, push_str, string_of};
use crate::token::TokenPath;

verus! {

/// One thing wrong with a theme file.
#[derive(Debug, PartialEq, Eq)]
pub enum Problem {
    /// A key that is not a valid token segment.
    Key {
        /// The key, as the file writes it.
        key: String,
        /// The line the key is written on.
        line: usize,
    },
    /// A key under `[ansi]` that does not name one of the sixteen slots.
    AnsiSlot {
        /// The key, as the file writes it.
        key: String,
        /// The line the key is written on.
        line: usize,
    },
    /// A value that is not a string.
    Type {
        /// The token holding the value.
        path: TokenPath,
        /// The line the token is written on.
        line: usize,
        /// The TOML type found instead.
        found: String,
    },
    /// A colour value that is neither a hex literal nor a reference.
    Hex {
        /// The token holding the value.
        path: TokenPath,
        /// The line the token is written on.
        line: usize,
        /// The value, as the file writes it.
        value: String,
    },
    /// A value that wraps a reference in other text.
    Reference {
        /// The token holding the value.
        path: TokenPath,
        /// The line the token is written on.
        line: usize,
        /// The value, as the file writes it.
        value: String,
    },
    /// A `[meta]` key the format does not define.
    MetaUnknown {
        /// The key, as the file writes it.
        key: String,
        /// The line the key is written on.
        line: usize,
    },
    /// A required `[meta]` key the file does not carry.
    MetaMissing {
        /// The missing key.
        key: String,
    },
    /// A `meta.variant` that is neither `dark` nor `light`.
    MetaVariant {
        /// The line the key is written on.
        line: usize,
        /// The value, as the file writes it.
        value: String,
    },
    /// A `meta.format` this version does not read.
    MetaFormat {
        /// The line the key is written on.
        line: usize,
        /// The value, or the TOML type when it is not a number.
        found: String,
    },
    /// A reference naming a token the theme does not define.
    Undefined {
        /// The token holding the reference.
        path: TokenPath,
        /// The line the token is written on.
        line: usize,
        /// The path the reference names.
        target: TokenPath,
    },
    /// A reference naming a namespace rather than a token.
    Namespace {
        /// The token holding the reference.
        path: TokenPath,
        /// The line the token is written on.
        line: usize,
        /// The path the reference names.
        target: TokenPath,
    },
    /// A set of tokens that reference each other in a loop.
    Cycle {
        /// The tokens in the cycle, in the order the references run.
        members: Vec<TokenPath>,
        /// The line the first member is written on.
        line: usize,
    },
}

/// A problem as plain values.
pub enum ProblemView {
    Key { key: Seq<char>, line: nat },
    AnsiSlot { key: Seq<char>, line: nat },
    Type { path: Seq<char>, line: nat, found: Seq<char> },
    Hex { path: Seq<char>, line: nat, value: Seq<char> },
    Reference { path: Seq<char>, line: nat, value: Seq<char> },
    MetaUnknown { key: Seq<char>, line: nat },
    MetaMissing { key: Seq<char> },
    MetaVariant { line: nat, value: Seq<char> },
    MetaFormat { line: nat, found: Seq<char> },
    Undefined { path: Seq<char>, line: nat, target: Seq<char> },
    Namespace { path: Seq<char>, line: nat, target: Seq<char> },
    Cycle { members: Seq<Seq<char>>, line: nat },
}

/// The paths as plain values.
pub open spec fn path_views(paths: Seq<TokenPath>) -> Seq<Seq<char>> {
    paths.map_values(|p: TokenPath| p@)
}

impl View for Problem {
    type V = ProblemView;

    open spec fn view(&self) -> ProblemView {
        match self {
            Problem::Key { key, line } => ProblemView::Key { key: key@, line: *line as nat },
            Problem::AnsiSlot { key, line } => ProblemView::AnsiSlot { key: key@, line: *line as nat },
            Problem::Type { path, line, found } => ProblemView::Type {
                path: path@,
                line: *line as nat,
                found: found@,
            },
            Problem::Hex { path, line, value } => ProblemView::Hex {
                path: path@,
                line: *line as nat,
                value: value@,
            },
            Problem::Reference { path, line, value } => ProblemView::Reference {
                path: path@,
                line: *line as nat,
                value: value@,
            },
            Problem::MetaUnknown { key, line } => ProblemView::MetaUnknown {
                key: key@,
                line: *line as nat,
            },
            Problem::MetaMissing { key } => ProblemView::MetaMissing { key: key@ },
            Problem::MetaVariant { line, value } => ProblemView::MetaVariant {
                line: *line as nat,
                value: value@,
            },
            Problem::MetaFormat { line, found } => ProblemView::MetaFormat {
                line: *line as nat,
                found: found@,
            },
            Problem::Undefined { path, line, target } => ProblemView::Undefined {
                path: path@,
                line: *line as nat,
                target: target@,
            },
            Problem::Namespace { path, line, target } => ProblemView::Namespace {
                path: path@,
                line: *line as nat,
                target: target@,
            },
            Problem::Cycle { members, line } => ProblemView::Cycle {
                members: path_views(members@),
                line: *line as nat,
            },
        }
    }
}

/// The line a problem sits on, or 0 when it is about the file as a whole.
pub open spec fn problem_line(p: ProblemView) -> nat {
    match p {
        ProblemView::Key { line, .. } => line,
        ProblemView::AnsiSlot { line, .. } => line,
        ProblemView::Type { line, .. } => line,
        ProblemView::Hex { line, .. } => line,
        ProblemView::Reference { line, .. } => line,
        ProblemView::MetaUnknown { line, .. } => line,
        ProblemView::MetaMissing { .. } => 0,
        ProblemView::MetaVariant { line, .. } => line,
        ProblemView::MetaFormat { line, .. } => line,
        ProblemView::Undefined { line, .. } => line,
        ProblemView::Namespace { line, .. } => line,
        ProblemView::Cycle { line, .. } => line,
    }
}

/// The problems as plain values.
pub open spec fn problem_views(problems: Seq<Problem>) -> Seq<ProblemView> {
    problems.map_values(|p: Problem| p@)
}

impl Problem {
    /// The line the problem sits on, or 0 when it is about the file as a whole.
    pub fn line(&self) -> (line: usize)
        ensures
            line as nat == problem_line(self@),
    {
        match self {
            Problem::Key { line, .. } => *line,
            Problem::AnsiSlot { line, .. } => *line,
            Problem::Type { line, .. } => *line,
            Problem::Hex { line, .. } => *line,
            Problem::Reference { line, .. } => *line,
            Problem::MetaUnknown { line, .. } => *line,
            Problem::MetaMissing { .. } => 0,
            Problem::MetaVariant { line, .. } => *line,
            Problem::MetaFormat { line, .. } => *line,
            Problem::Undefined { line, .. } => *line,
            Problem::Namespace { line, .. } => *line,
            Problem::Cycle { line, .. } => *line,
        }
    }
}

/// `problems` ordered by line, problems on one line in the order given.
pub open spec fn sort_by_line(problems: Seq<ProblemView>) -> Seq<ProblemView>
    decreases problems.len(),
{
    if problems.len() == 0 {
        Seq::empty()
    } else {
        insert_by_line(sort_by_line(problems.drop_last()), problems.last())
    }
}

/// `sorted` with `p` after every problem on its line or an earlier one.
pub open spec fn insert_by_line(sorted: Seq<ProblemView>, p: ProblemView) -> Seq<ProblemView>
    decreases sorted.len(),
{
    if sorted.len() == 0 {
        seq![p]
    } else if problem_line(sorted.last()) <= problem_line(p) {
        sorted.push(p)
    } else {
        insert_by_line(sorted.drop_last(), p).push(sorted.last())
    }
}

/// Inserting never empties a list.
proof fn lemma_insert_by_line_len(sorted: Seq<ProblemView>, p: ProblemView)
    ensures
        insert_by_line(sorted, p).len() == sorted.len() + 1,
    decreases sorted.len(),
{
    if sorted.len() > 0 && problem_line(sorted.last()) > problem_line(p) {
        lemma_insert_by_line_len(sorted.drop_last(), p);
    }
}

/// Sorting keeps the number of problems.
pub proof fn lemma_sort_by_line_len(problems: Seq<ProblemView>)
    ensures
        sort_by_line(problems).len() == problems.len(),
    decreases problems.len(),
{
    if problems.len() > 0 {
        lemma_sort_by_line_len(problems.drop_last());
        lemma_insert_by_line_len(sort_by_line(problems.drop_last()), problems.last());
    }
}

fn insert_problem(sorted: &mut Vec<Problem>, p: Problem)
    ensures
        problem_views(final(sorted)@) == insert_by_line(problem_views(old(sorted)@), p@),
    decreases old(sorted)@.len(),
{
    let ghost views = problem_views(sorted@);
    if sorted.len() == 0 {
        sorted.push(p);
        proof {
            assert(problem_views(sorted@) =~= seq![p@]);
        }
        return;
    }
    if sorted[sorted.len() - 1].line() <= p.line() {
        sorted.push(p);
        proof {
            assert(problem_views(sorted@) =~= views.push(p@));
            assert(views.last() == views[views.len() - 1]);
        }
        return;
    }
    let last = sorted.pop().unwrap();
    proof {
        assert(problem_views(sorted@) =~= views.drop_last());
        assert(last@ == views.last());
    }
    insert_problem(sorted, p);
    let ghost middle = problem_views(sorted@);
    sorted.push(last);
    proof {
        assert(problem_views(sorted@) =~= middle.push(views.last()));
    }
}

/// `problems` ordered by line, problems on one line keeping the order they had.
pub fn sorted_by_line(problems: Vec<Problem>) -> (sorted: Vec<Problem>)
    ensures
        problem_views(sorted@) == sort_by_line(problem_views(problems@)),
{
    let ghost views = problem_views(problems@);
    let mut rest = problems;
    let mut sorted: Vec<Problem> = Vec::new();
    let mut i: usize = 0;
    let n = rest.len();
    proof {
        assert(views.take(0) =~= Seq::<ProblemView>::empty());
        assert(problem_views(sorted@) =~= Seq::<ProblemView>::empty());
        assert(views.skip(0) =~= views);
    }
    while rest.len() > 0
        invariant
            i + rest@.len() == n,
            views.len() == n,
            problem_views(rest@) == views.skip(i as int),
            problem_views(sorted@) == sort_by_line(views.take(i as int)),
        decreases rest@.len(),
    {
        let ghost before = rest@;
        let p = rest.remove(0);
        proof {
            assert(p == before[0]);
            assert(views.skip(i as int)[0] == views[i as int]);
            assert(problem_views(before)[0] == p@);
            assert(problem_views(rest@) =~= views.skip(i + 1)) by {
                assert(rest@ =~= before.drop_first());
                assert(views.skip(i + 1) =~= views.skip(i as int).drop_first());
            }
        }
        insert_problem(&mut sorted, p);
        proof {
            assert(views.take(i + 1).drop_last() =~= views.take(i as int));
            assert(views.take(i + 1).last() == views[i as int]);
        }
        i = i + 1;
    }
    proof {
        assert(views.take(n as int) =~= views);
    }
    sorted
}

/// `line N: `.
pub open spec fn line_prefix(line: nat) -> Seq<char> {
    "line "@ + decimal(line) + ": "@
}

/// The members of a cycle joined by ` -> `, from `k` on.
pub open spec fn arrows_from(members: Seq<Seq<char>>, k: int) -> Seq<char>
    decreases members.len() - k,
{
    if k >= members.len() {
        Seq::empty()
    } else {
        members[k] + " -> "@ + arrows_from(members, k + 1)
    }
}

/// The cycle as `a -> b -> a`.
pub open spec fn cycle_text(members: Seq<Seq<char>>) -> Seq<char> {
    if members.len() == 0 {
        Seq::empty()
    } else {
        arrows_from(members, 0) + members[0]
    }
}

/// What a problem says.
pub open spec fn problem_text(p: ProblemView) -> Seq<char> {
    match p {
        ProblemView::Key { key, line } => line_prefix(line) + "key `"@ + key
            + "` is not a token segment: lowercase, digits, internal hyphens"@,
        ProblemView::AnsiSlot { key, line } => line_prefix(line) + "`"@ + key
            + "` under [ansi] is not a slot: the slots are `0` through `15`"@,
        ProblemView::Type { path, line, found } => line_prefix(line) + path + " is a "@ + found
            + ", and every theme value is a string"@,
        ProblemView::Hex { path, line, value } => line_prefix(line) + path + " is `"@ + value
            + "`, and a hex literal is `#` and six hex digits"@,
        ProblemView::Reference { path, line, value } => line_prefix(line) + path + " is `"@ + value
            + "`, and a reference must fill the whole value"@,
        ProblemView::MetaUnknown { key, line } => line_prefix(line) + "[meta] has no key `"@ + key
            + "`"@,
        ProblemView::MetaMissing { key } => "[meta] is missing `"@ + key + "`"@,
        ProblemView::MetaVariant { line, value } => line_prefix(line) + "meta.variant is `"@ + value
            + "`, and a variant is `dark` or `light`"@,
        ProblemView::MetaFormat { line, found } => line_prefix(line) + "meta.format is `"@ + found
            + "`, and this version of vanadis reads format 1"@,
        ProblemView::Undefined { path, line, target } => line_prefix(line) + path
            + " references undefined "@ + target,
        ProblemView::Namespace { path, line, target } => line_prefix(line) + path + " references "@
            + target + ", which is a namespace, not a token"@,
        ProblemView::Cycle { members, line } => line_prefix(line) + "reference cycle "@ + cycle_text(
            members,
        ),
    }
}

fn push_line(out: &mut Vec<char>, line: usize)
    ensures
        final(out)@ == old(out)@ + line_prefix(line as nat),
{
    push_str(out, "line ");
    let number = decimal_chars(line);
    push_all(out, number.as_slice());
    push_str(out, ": ");
    proof {
        assert(final(out)@ =~= old(out)@ + line_prefix(line as nat));
    }
}

fn push_cycle(out: &mut Vec<char>, members: &Vec<TokenPath>)
    ensures
        final(out)@ == old(out)@ + cycle_text(path_views(members@)),
{
    let ghost views = path_views(members@);
    if members.len() == 0 {
        return;
    }
    let ghost start = out@;
    let mut k: usize = 0;
    while k < members.len()
        invariant
            k <= members@.len(),
            members@.len() > 0,
            views == path_views(members@),
            out@ + arrows_from(views, k as int) == start + arrows_from(views, 0),
        decreases members@.len() - k,
    {
        let ghost before = out@;
        push_str(out, members[k].as_str());
        push_str(out, " -> ");
        proof {
            assert(views[k as int] == members@[k as int]@);
            assert(arrows_from(views, k as int) == views[k as int] + " -> "@ + arrows_from(views, k + 1));
            assert(out@ == before + views[k as int] + " -> "@);
            assert(out@ + arrows_from(views, k + 1) =~= before + arrows_from(views, k as int));
        }
        k = k + 1;
    }
    push_str(out, members[0].as_str());
    proof {
        assert(arrows_from(views, members@.len() as int) == Seq::<char>::empty());
        assert(views[0] == members@[0]@);
        assert(out@ =~= start + cycle_text(views));
    }
}

impl Problem {
    /// What the problem says, as one line.
    pub fn message(&self) -> (text: String)
        ensures
            text@ == problem_text(self@),
    {
        let mut out: Vec<char> = Vec::new();
        match self {
            Problem::Key { key, line } => {
                push_line(&mut out, *line);
                push_str(&mut out, "key `");
                push_str(&mut out, key.as_str());
                push_str(&mut out, "` is not a token segment: lowercase, digits, internal hyphens");
            },
            Problem::AnsiSlot { key, line } => {
                push_line(&mut out, *line);
                push_str(&mut out, "`");
                push_str(&mut out, key.as_str());
                push_str(&mut out, "` under [ansi] is not a slot: the slots are `0` through `15`");
            },
            Problem::Type { path, line, found } => {
                push_line(&mut out, *line);
                push_str(&mut out, path.as_str());
                push_str(&mut out, " is a ");
                push_str(&mut out, found.as_str());
                push_str(&mut out, ", and every theme value is a string");
            },
            Problem::Hex { path, line, value } => {
                push_line(&mut out, *line);
                push_str(&mut out, path.as_str());
                push_str(&mut out, " is `");
                push_str(&mut out, value.as_str());
                push_str(&mut out, "`, and a hex literal is `#` and six hex digits");
            },
            Problem::Reference { path, line, value } => {
                push_line(&mut out, *line);
                push_str(&mut out, path.as_str());
                push_str(&mut out, " is `");
                push_str(&mut out, value.as_str());
                push_str(&mut out, "`, and a reference must fill the whole value");
            },
            Problem::MetaUnknown { key, line } => {
                push_line(&mut out, *line);
                push_str(&mut out, "[meta] has no key `");
                push_str(&mut out, key.as_str());
                push_str(&mut out, "`");
            },
            Problem::MetaMissing { key } => {
                push_str(&mut out, "[meta] is missing `");
                push_str(&mut out, key.as_str());
                push_str(&mut out, "`");
            },
            Problem::MetaVariant { line, value } => {
                push_line(&mut out, *line);
                push_str(&mut out, "meta.variant is `");
                push_str(&mut out, value.as_str());
                push_str(&mut out, "`, and a variant is `dark` or `light`");
            },
            Problem::MetaFormat { line, found } => {
                push_line(&mut out, *line);
                push_str(&mut out, "meta.format is `");
                push_str(&mut out, found.as_str());
                push_str(&mut out, "`, and this version of vanadis reads format 1");
            },
            Problem::Undefined { path, line, target } => {
                push_line(&mut out, *line);
                push_str(&mut out, path.as_str());
                push_str(&mut out, " references undefined ");
                push_str(&mut out, target.as_str());
            },
            Problem::Namespace { path, line, target } => {
                push_line(&mut out, *line);
                push_str(&mut out, path.as_str());
                push_str(&mut out, " references ");
                push_str(&mut out, target.as_str());
                push_str(&mut out, ", which is a namespace, not a token");
            },
            Problem::Cycle { members, line } => {
                push_line(&mut out, *line);
                push_str(&mut out, "reference cycle ");
                push_cycle(&mut out, members);
            },
        }
        proof {
            assert(out@ =~= problem_text(self@));
        }
        string_of(out.as_slice())
    }
}

/// The problems as one indented line each, joined by newlines.
pub open spec fn listed_text(problems: Seq<ProblemView>) -> Seq<char>
    decreases problems.len(),
{
    if problems.len() == 0 {
        Seq::empty()
    } else if problems.len() == 1 {
        "  "@ + problem_text(problems[0])
    } else {
        listed_text(problems.drop_last()) + "\n  "@ + problem_text(problems.last())
    }
}

/// The problems as one indented line each, joined by newlines.
pub fn listed(problems: &Vec<Problem>) -> (text: String)
    ensures
        text@ == listed_text(problem_views(problems@)),
{
    let ghost views = problem_views(problems@);
    let mut out: Vec<char> = Vec::new();
    let mut k: usize = 0;
    while k < problems.len()
        invariant
            k <= problems@.len(),
            views == problem_views(problems@),
            out@ == listed_text(views.take(k as int)),
        decreases problems@.len() - k,
    {
        if k == 0 {
            push_str(&mut out, "  ");
        } else {
            push_str(&mut out, "\n  ");
        }
        let line = problems[k].message();
        push_str(&mut out, line.as_str());
        proof {
            assert(views.take(k + 1).drop_last() =~= views.take(k as int));
            assert(views.take(k + 1).last() == problems@[k as int]@);
            if k == 0 {
                assert(views.take(1)[0] == problems@[0]@);
            }
        }
        k = k + 1;
    }
    proof {
        assert(views.take(problems@.len() as int) =~= views);
    }
    string_of(out.as_slice())
}

/// No problem in `ps` sits on a later line than one after it.
pub open spec fn in_line_order(ps: Seq<ProblemView>) -> bool {
    forall|i: int, j: int| 0 <= i < j < ps.len() ==> problem_line(#[trigger] ps[i]) <= problem_line(#[trigger] ps[j])
}

proof fn lemma_insert_by_line_keeps(sorted: Seq<ProblemView>, p: ProblemView)
    requires
        in_line_order(sorted),
    ensures
        in_line_order(insert_by_line(sorted, p)),
        insert_by_line(sorted, p).len() == sorted.len() + 1,
        forall|x: ProblemView| #[trigger] insert_by_line(sorted, p).contains(x) <==> (x == p || sorted.contains(x)),
    decreases sorted.len(),
{
    let r = insert_by_line(sorted, p);
    if sorted.len() == 0 {
        assert(r =~= seq![p]);
        assert forall|x: ProblemView| r.contains(x) <==> (x == p || sorted.contains(x)) by {
            if r.contains(x) {
                assert(r[0] == x);
            }
            if x == p {
                assert(r[0] == x);
            }
        }
    } else if problem_line(sorted.last()) <= problem_line(p) {
        assert forall|x: ProblemView| r.contains(x) <==> (x == p || sorted.contains(x)) by {
            if r.contains(x) {
                let k = choose|k: int| 0 <= k < r.len() && r[k] == x;
                if k < sorted.len() {
                    assert(sorted[k] == x);
                }
            }
            if x == p {
                assert(r[sorted.len() as int] == x);
            } else if sorted.contains(x) {
                let k = choose|k: int| 0 <= k < sorted.len() && sorted[k] == x;
                assert(r[k] == x);
            }
        }
    } else {
        let d = sorted.drop_last();
        assert(in_line_order(d)) by {
            assert forall|i: int, j: int| 0 <= i < j < d.len() implies problem_line(#[trigger] d[i]) <= problem_line(#[trigger] d[j]) by {
                assert(d[i] == sorted[i] && d[j] == sorted[j]);
            }
        }
        lemma_insert_by_line_keeps(d, p);
        let q = insert_by_line(d, p);
        assert(r == q.push(sorted.last()));
        assert forall|i: int| 0 <= i < q.len() implies problem_line(#[trigger] q[i]) <= problem_line(sorted.last()) by {
            assert(q.contains(q[i]));
            if q[i] != p {
                assert(d.contains(q[i]));
                let k = choose|k: int| 0 <= k < d.len() && d[k] == q[i];
                assert(d[k] == sorted[k]);
                assert(sorted.last() == sorted[sorted.len() - 1]);
                assert(problem_line(sorted[k]) <= problem_line(sorted[sorted.len() - 1]));
            }
        }
        assert forall|x: ProblemView| r.contains(x) <==> (x == p || sorted.contains(x)) by {
            if r.contains(x) {
                let k = choose|k: int| 0 <= k < r.len() && r[k] == x;
                if k < q.len() {
                    assert(q[k] == x);
                    assert(q.contains(x));
                    if x != p {
                        assert(d.contains(x));
                        let m = choose|m: int| 0 <= m < d.len() && d[m] == x;
                        assert(sorted[m] == x);
                    }
                } else {
                    assert(sorted[sorted.len() - 1] == x);
                }
            }
            if x == p {
                assert(q.contains(x));
                let k = choose|k: int| 0 <= k < q.len() && q[k] == x;
                assert(r[k] == x);
            } else if sorted.contains(x) {
                let k = choose|k: int| 0 <= k < sorted.len() && sorted[k] == x;
                if k < d.len() {
                    assert(d[k] == x);
                    assert(d.contains(x));
                    assert(q.contains(x));
                    let m = choose|m: int| 0 <= m < q.len() && q[m] == x;
                    assert(r[m] == x);
                } else {
                    assert(r[r.len() - 1] == x);
                }
            }
        }
    }
}

/// Sorting the problems orders them by line and keeps every one of them.
pub proof fn lemma_sort_by_line_keeps(ps: Seq<ProblemView>)
    ensures
        in_line_order(sort_by_line(ps)),
        sort_by_line(ps).len() == ps.len(),
        forall|x: ProblemView| #[trigger] sort_by_line(ps).contains(x) <==> ps.contains(x),
    decreases ps.len(),
{
    if ps.len() > 0 {
        lemma_sort_by_line_keeps(ps.drop_last());
        lemma_insert_by_line_keeps(sort_by_line(ps.drop_last()), ps.last());
        assert forall|x: ProblemView| sort_by_line(ps).contains(x) <==> ps.contains(x) by {
            if ps.contains(x) && x != ps.last() {
                let k = choose|k: int| 0 <= k < ps.len() && ps[k] == x;
                assert(ps.drop_last()[k] == x);
            }
            if ps.drop_last().contains(x) {
                let k = choose|k: int| 0 <= k < ps.drop_last().len() && ps.drop_last()[k] == x;
                assert(ps[k] == x);
            }
            if x == ps.last() {
                assert(ps[ps.len() - 1] == x);
            }
        }
    }
}

} // verus!
