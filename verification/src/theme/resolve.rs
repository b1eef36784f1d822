//! The reference graph: what is wrong with it, and what it resolves to.
//!
//! A theme value is either a literal or exactly one reference, so each token has at most
//! one outgoing edge. Tokens are numbered by their place in path order, and the graph is the
//! successor of each: `next[v]` is the token `v` references, when it is defined.

use vstd::prelude::*;

use crate::path_map::{lemma_sorted_unique, lookup, strictly_sorted, PathMap};
use crate::theme::problem::{problem_views, Problem, ProblemView};
use crate::theme::walk::{definition_views, Definition, RawValue, RawView};
use crate::token::{entry_views, lemma_pairs_map_prefix, pairs_map, TokenPath, Tokens};

verus! {

/// The token `v` references, when it has one.
pub open spec fn step(next: Seq<Option<usize>>, v: usize) -> Option<usize> {
    if v < next.len() {
        next[v as int]
    } else {
        None
    }
}

/// Where following `k` references from `v` leads, or `None` when the chain ends first.
pub open spec fn reach(next: Seq<Option<usize>>, v: usize, k: nat) -> Option<usize>
    decreases k,
{
    if k == 0 {
        Some(v)
    } else {
        match reach(next, v, (k - 1) as nat) {
            Some(u) => step(next, u),
            None => None,
        }
    }
}

/// Whether following references from `v` comes back to `v`.
pub open spec fn on_cycle(next: Seq<Option<usize>>, v: usize) -> bool {
    exists|k: nat| k >= 1 && #[trigger] reach(next, v, k) == Some(v)
}

/// Every edge lands on a token of the graph.
pub open spec fn graph_ok(next: Seq<Option<usize>>) -> bool {
    forall|v: int| 0 <= v < next.len() && (#[trigger] next[v]) is Some ==> next[v]->0 < next.len()
}

/// `c` lists a cycle in the order its references run: each member references the next,
/// and the last the first.
pub open spec fn is_cycle(next: Seq<Option<usize>>, c: Seq<usize>) -> bool {
    &&& c.len() > 0
    &&& forall|k: int| 0 <= k < c.len() ==> #[trigger] c[k] < next.len()
    &&& forall|k: int| 0 <= k < c.len() - 1 ==> step(next, #[trigger] c[k]) == Some(c[k + 1])
    &&& step(next, c.last()) == Some(c[0])
}

/// Whether `v` is listed in one of the cycles `cs`.
pub open spec fn reported(cs: Seq<Seq<usize>>, v: usize) -> bool {
    exists|i: int, k: int| 0 <= i < cs.len() && 0 <= k < cs[i].len() && #[trigger] cs[i][k] == v
}

/// No token is listed twice, within one cycle or across two.
pub open spec fn distinct_members(cs: Seq<Seq<usize>>) -> bool {
    forall|i1: int, k1: int, i2: int, k2: int|
        0 <= i1 < cs.len() && 0 <= k1 < cs[i1].len() && 0 <= i2 < cs.len() && 0 <= k2
            < cs[i2].len() && (i1 != i2 || k1 != k2) ==> #[trigger] cs[i1][k1] != #[trigger] cs[i2][k2]
}

/// The cycles as plain sequences.
pub open spec fn cycle_views(cs: Seq<Vec<usize>>) -> Seq<Seq<usize>> {
    cs.map_values(|c: Vec<usize>| c@)
}

/// Following `a + b` references is following `a`, then `b`.
pub proof fn lemma_reach_split(next: Seq<Option<usize>>, v: usize, a: nat, b: nat)
    ensures
        reach(next, v, a + b) == match reach(next, v, a) {
            Some(u) => reach(next, u, b),
            None => None,
        },
    decreases b,
{
    if b > 0 {
        lemma_reach_split(next, v, a, (b - 1) as nat);
        assert((a + b - 1) as nat == a + (b - 1) as nat);
        match reach(next, v, a) {
            Some(u) => {},
            None => {},
        }
    }
}

/// Along a path `w` whose last member references `end`, following `t` references from
/// `w[j]` lands `t` members further on, or on `end` just past the path.
proof fn lemma_path_reach(next: Seq<Option<usize>>, w: Seq<usize>, end: Option<usize>, j: int, t: nat)
    requires
        0 <= j < w.len(),
        j + t <= w.len(),
        forall|k: int| 0 <= k < w.len() - 1 ==> step(next, #[trigger] w[k]) == Some(w[k + 1]),
        step(next, w.last()) == end,
    ensures
        reach(next, w[j], t) == if j + t < w.len() {
            Some(w[j + t])
        } else {
            end
        },
    decreases t,
{
    if t > 0 {
        lemma_path_reach(next, w, end, j, (t - 1) as nat);
        assert(reach(next, w[j], (t - 1) as nat) == Some(w[j + t - 1]));
    }
}

/// A chain that has ended stays ended.
pub proof fn lemma_ended(next: Seq<Option<usize>>, v: usize, a: nat, b: nat)
    requires
        reach(next, v, a) is None,
        a <= b,
    ensures
        reach(next, v, b) is None,
    decreases b - a,
{
    if a < b {
        lemma_ended(next, v, a, (b - 1) as nat);
    }
}

/// Every member of a listed cycle is on a cycle.
proof fn lemma_cycle_members(next: Seq<Option<usize>>, c: Seq<usize>, k: int)
    requires
        is_cycle(next, c),
        0 <= k < c.len(),
    ensures
        on_cycle(next, c[k]),
{
    let n = c.len();
    lemma_path_reach(next, c, Some(c[0]), k, (n - k) as nat);
    lemma_path_reach(next, c, Some(c[0]), 0, k as nat);
    lemma_reach_split(next, c[k], (n - k) as nat, k as nat);
    assert((n - k) as nat + k as nat == n as nat);
    if k == 0 {
        assert(reach(next, c[0], 0) == Some(c[0]));
    }
    assert(reach(next, c[k], n as nat) == Some(c[k]));
}

/// Marks for the walk below: not yet met, on the path being followed, or settled.
pub open spec fn unmet() -> u8 {
    0
}

/// How many tokens are not yet met.
pub open spec fn count_unmet(state: Seq<u8>) -> nat
    decreases state.len(),
{
    if state.len() == 0 {
        0
    } else {
        count_unmet(state.drop_last()) + if state.last() == 0u8 { 1nat } else { 0nat }
    }
}

/// Meeting a token lowers the count of those not yet met.
proof fn lemma_count_unmet(state: Seq<u8>, i: int, mark: u8)
    requires
        0 <= i < state.len(),
        state[i] == 0u8,
        mark != 0u8,
    ensures
        count_unmet(state.update(i, mark)) + 1 == count_unmet(state),
    decreases state.len(),
{
    let s2 = state.update(i, mark);
    if i == state.len() - 1 {
        assert(s2.drop_last() =~= state.drop_last());
    } else {
        lemma_count_unmet(state.drop_last(), i, mark);
        assert(s2.drop_last() =~= state.drop_last().update(i, mark));
    }
}

/// From a settled token, following references meets only settled tokens.
proof fn lemma_settled_closed(next: Seq<Option<usize>>, state: Seq<u8>, v: usize, k: nat)
    requires
        state.len() == next.len(),
        v < next.len(),
        state[v as int] == 2u8,
        forall|u: int|
            0 <= u < next.len() && state[u] == 2u8 && (#[trigger] next[u]) is Some ==> next[u]->0
                < next.len() && state[next[u]->0 as int] == 2u8,
    ensures
        reach(next, v, k) matches Some(u) ==> u < next.len() && state[u as int] == 2u8,
    decreases k,
{
    if k > 0 {
        lemma_settled_closed(next, state, v, (k - 1) as nat);
    }
}

/// Settled tokens reference only settled tokens.
pub open spec fn closed(next: Seq<Option<usize>>, state: Seq<u8>) -> bool {
    forall|u: int|
        0 <= u < next.len() && state[u] == 2u8 && (#[trigger] next[u]) is Some ==> state[next[u]->0 as int]
            == 2u8
}

/// Every settled token on a cycle is listed in `cs`.
pub open spec fn complete(next: Seq<Option<usize>>, state: Seq<u8>, cs: Seq<Seq<usize>>) -> bool {
    forall|v: usize| v < next.len() && state[v as int] == 2u8 && #[trigger] on_cycle(next, v) ==> reported(cs, v)
}

/// Every member of `cs` is a listed cycle's, and settled.
pub open spec fn listed(next: Seq<Option<usize>>, state: Seq<u8>, cs: Seq<Seq<usize>>) -> bool {
    &&& forall|i: int| 0 <= i < cs.len() ==> is_cycle(next, #[trigger] cs[i])
    &&& distinct_members(cs)
    &&& forall|i: int, k: int| 0 <= i < cs.len() && 0 <= k < cs[i].len() ==> state[#[trigger] cs[i][k] as int] == 2u8
}

/// `w` is a path: each member references the next, and none repeats.
pub open spec fn is_path(next: Seq<Option<usize>>, w: Seq<usize>) -> bool {
    &&& forall|k: int| 0 <= k < w.len() ==> #[trigger] w[k] < next.len()
    &&& forall|k1: int, k2: int| 0 <= k1 < k2 < w.len() ==> w[k1] != w[k2]
    &&& forall|k: int| 0 <= k < w.len() - 1 ==> step(next, #[trigger] w[k]) == Some(w[k + 1])
}

/// Whether token `v` is a member of `w`.
pub open spec fn in_walk(w: Seq<usize>, v: int) -> bool {
    exists|k: int| 0 <= k < w.len() && #[trigger] w[k] as int == v
}

/// Following references from `v` meets a member of `c`.
pub open spec fn leads_to(next: Seq<Option<usize>>, v: usize, c: Seq<usize>) -> bool {
    exists|k: nat| #![trigger reach(next, v, k)] reach(next, v, k) is Some && c.contains(reach(next, v, k)->0)
}

/// Some token below `bound` leads into `c`.
pub open spec fn met_by(next: Seq<Option<usize>>, c: Seq<usize>, bound: int) -> bool {
    exists|v: usize| v < bound && #[trigger] leads_to(next, v, c)
}

/// Each cycle of `cs` is met before the ones after it: some token that leads into it comes
/// before every token that leads into a later one.
pub open spec fn met_in_order(next: Seq<Option<usize>>, cs: Seq<Seq<usize>>) -> bool {
    forall|i: int, j: int, w: usize|
        #![trigger cs[i], leads_to(next, w, cs[j])]
        0 <= i < j < cs.len() && w < next.len() && leads_to(next, w, cs[j]) ==> met_by(next, cs[i], w as int)
}

/// Some token below `bound` leads into each cycle of `cs`.
pub open spec fn met_below(next: Seq<Option<usize>>, cs: Seq<Seq<usize>>, bound: int) -> bool {
    forall|i: int| 0 <= i < cs.len() ==> #[trigger] met_by(next, cs[i], bound)
}

/// `state` with every member of `w` settled.
pub open spec fn settled(state: Seq<u8>, w: Seq<usize>) -> Seq<u8> {
    Seq::new(state.len(), |v: int| if in_walk(w, v) { 2u8 } else { state[v] })
}

/// Settles every member of `walked`.
fn settle(state: &mut Vec<u8>, walked: &Vec<usize>)
    requires
        forall|k: int| 0 <= k < walked@.len() ==> #[trigger] walked@[k] < old(state)@.len(),
    ensures
        final(state)@ == settled(old(state)@, walked@),
{
    let mut k: usize = 0;
    while k < walked.len()
        invariant
            k <= walked@.len(),
            state@.len() == old(state)@.len(),
            forall|j: int| 0 <= j < walked@.len() ==> #[trigger] walked@[j] < old(state)@.len(),
            state@ == settled(old(state)@, walked@.take(k as int)),
        decreases walked@.len() - k,
    {
        state.set(walked[k], 2u8);
        proof {
            let w1 = walked@.take(k as int);
            let w2 = walked@.take(k + 1);
            assert forall|v: int| 0 <= v < state@.len() implies (#[trigger] in_walk(w2, v) <==> (in_walk(w1, v)
                || v == walked@[k as int] as int)) by {
                if in_walk(w2, v) {
                    let j = choose|j: int| 0 <= j < w2.len() && #[trigger] w2[j] as int == v;
                    if j < k {
                        assert(w1[j] == w2[j]);
                    }
                }
                if in_walk(w1, v) {
                    let j = choose|j: int| 0 <= j < w1.len() && #[trigger] w1[j] as int == v;
                    assert(w2[j] == w1[j]);
                }
                if v == walked@[k as int] as int {
                    assert(w2[k as int] == walked@[k as int]);
                }
            }
            assert(state@ =~= settled(old(state)@, w2));
        }
        k = k + 1;
    }
    proof {
        assert(walked@.take(walked@.len() as int) =~= walked@);
    }
}

/// Where `x` first stands in `walked`.
fn position(walked: &Vec<usize>, x: usize) -> (at: usize)
    requires
        in_walk(walked@, x as int),
    ensures
        at < walked@.len(),
        walked@[at as int] == x,
{
    let mut i: usize = 0;
    while i < walked.len()
        invariant
            i <= walked@.len(),
            in_walk(walked@, x as int),
            forall|j: int| 0 <= j < i ==> walked@[j] != x,
        decreases walked@.len() - i,
    {
        if walked[i] == x {
            return i;
        }
        i = i + 1;
    }
    proof {
        let j = choose|j: int| 0 <= j < walked@.len() && #[trigger] walked@[j] as int == x as int;
        assert(walked@[j] != x);
    }
    0
}

/// A path that ends without a reference has no member on a cycle.
proof fn lemma_not_on_cycle_ended(next: Seq<Option<usize>>, w: Seq<usize>, j: int)
    requires
        is_path(next, w),
        w.len() > 0,
        step(next, w.last()) is None,
        0 <= j < w.len(),
    ensures
        !on_cycle(next, w[j]),
{
    if on_cycle(next, w[j]) {
        let p = choose|p: nat| p >= 1 && #[trigger] reach(next, w[j], p) == Some(w[j]);
        if j + p < w.len() {
            lemma_path_reach(next, w, None, j, p);
            assert(w[j + p] != w[j]);
        } else {
            lemma_path_reach(next, w, None, j, (w.len() - j) as nat);
            lemma_ended(next, w[j], (w.len() - j) as nat, p);
        }
    }
}

/// A path that runs into settled tokens has no member on a cycle: its members are not
/// settled, and everything after it is.
proof fn lemma_not_on_cycle_settled(
    next: Seq<Option<usize>>,
    state: Seq<u8>,
    w: Seq<usize>,
    end: usize,
    j: int,
)
    requires
        is_path(next, w),
        w.len() > 0,
        step(next, w.last()) == Some(end),
        end < next.len(),
        state.len() == next.len(),
        state[end as int] == 2u8,
        graph_ok(next),
        closed(next, state),
        forall|k: int| 0 <= k < w.len() ==> state[#[trigger] w[k] as int] != 2u8,
        0 <= j < w.len(),
    ensures
        !on_cycle(next, w[j]),
{
    if on_cycle(next, w[j]) {
        let p = choose|p: nat| p >= 1 && #[trigger] reach(next, w[j], p) == Some(w[j]);
        if j + p < w.len() {
            lemma_path_reach(next, w, Some(end), j, p);
            assert(w[j + p] != w[j]);
        } else {
            let a = (w.len() - j) as nat;
            lemma_path_reach(next, w, Some(end), j, a);
            lemma_reach_split(next, w[j], a, (p - a) as nat);
            assert(a + (p - a) as nat == p);
            assert forall|u: int|
                0 <= u < next.len() && state[u] == 2u8 && (#[trigger] next[u]) is Some implies next[u]->0
                    < next.len() && state[next[u]->0 as int] == 2u8 by {}
            lemma_settled_closed(next, state, end, (p - a) as nat);
            assert(state[w[j] as int] != 2u8);
        }
    }
}

/// Inside the loop a path closes, following references stays in the loop.
proof fn lemma_loop_reach(next: Seq<Option<usize>>, w: Seq<usize>, at: int, t: nat) -> (m: int)
    requires
        is_path(next, w),
        0 <= at < w.len(),
        step(next, w.last()) == Some(w[at]),
    ensures
        at <= m < w.len(),
        reach(next, w[at], t) == Some(w[m]),
    decreases t,
{
    if t == 0 {
        at
    } else {
        let m0 = lemma_loop_reach(next, w, at, (t - 1) as nat);
        if m0 < w.len() - 1 {
            m0 + 1
        } else {
            at
        }
    }
}

/// When the walk meets its own path at `at`, the members from `at` on are a cycle, and
/// those before it are on none.
proof fn lemma_walk_cycle(next: Seq<Option<usize>>, w: Seq<usize>, at: int, j: int)
    requires
        is_path(next, w),
        0 <= at < w.len(),
        step(next, w.last()) == Some(w[at]),
        0 <= j < at,
    ensures
        !on_cycle(next, w[j]),
{
    if on_cycle(next, w[j]) {
        let p = choose|p: nat| p >= 1 && #[trigger] reach(next, w[j], p) == Some(w[j]);
        if j + p < at {
            lemma_path_reach(next, w, Some(w[at]), j, p);
            assert(w[j + p] != w[j]);
        } else {
            let a = (at - j) as nat;
            lemma_path_reach(next, w, Some(w[at]), j, a);
            lemma_reach_split(next, w[j], a, (p - a) as nat);
            assert(a + (p - a) as nat == p);
            let m = lemma_loop_reach(next, w, at, (p - a) as nat);
            assert(w[m] != w[j]);
        }
    }
}

/// The loop a path closes is a cycle.
proof fn lemma_loop_is_cycle(next: Seq<Option<usize>>, w: Seq<usize>, at: int)
    requires
        is_path(next, w),
        0 <= at < w.len(),
        step(next, w.last()) == Some(w[at]),
    ensures
        is_cycle(next, w.subrange(at, w.len() as int)),
{
    let c = w.subrange(at, w.len() as int);
    assert forall|k: int| 0 <= k < c.len() - 1 implies step(next, #[trigger] c[k]) == Some(c[k + 1]) by {
        assert(c[k] == w[at + k]);
        assert(c[k + 1] == w[at + k + 1]);
    }
    assert forall|k: int| 0 <= k < c.len() implies #[trigger] c[k] < next.len() by {
        assert(c[k] == w[at + k]);
    }
    assert(c.last() == w.last());
}

/// Stepping the walk onto `current`, which it had not met, keeps the walk's invariant.
proof fn lemma_walk_step(
    next: Seq<Option<usize>>,
    before: Seq<u8>,
    state: Seq<u8>,
    w: Seq<usize>,
    current: usize,
    start: usize,
)
    requires
        state.len() == next.len(),
        current < next.len(),
        state[current as int] == 0u8,
        forall|v: int| 0 <= v < next.len() ==> state[v] == 0u8 || state[v] == 1u8 || state[v] == 2u8,
        forall|v: int| 0 <= v < next.len() ==> (state[v] == 2u8 <==> before[v] == 2u8),
        forall|v: int| 0 <= v < next.len() ==> (state[v] == 1u8 <==> in_walk(w, v)),
        is_path(next, w),
        w.len() == 0 ==> current == start,
        w.len() > 0 ==> w[0] == start,
        w.len() > 0 ==> step(next, w.last()) == Some(current),
    ensures
        ({
            let s2 = state.update(current as int, 1u8);
            let w2 = w.push(current);
            &&& forall|v: int| 0 <= v < next.len() ==> s2[v] == 0u8 || s2[v] == 1u8 || s2[v] == 2u8
            &&& forall|v: int| 0 <= v < next.len() ==> (s2[v] == 2u8 <==> before[v] == 2u8)
            &&& forall|v: int| 0 <= v < next.len() ==> (s2[v] == 1u8 <==> in_walk(w2, v))
            &&& is_path(next, w2)
            &&& w2[0] == start
        }),
{
    let s2 = state.update(current as int, 1u8);
    let w2 = w.push(current);
    assert(!in_walk(w, current as int));
    assert forall|v: int| 0 <= v < next.len() implies (s2[v] == 1u8 <==> #[trigger] in_walk(w2, v)) by {
        if v == current as int {
            assert(w2[w.len() as int] == current);
        } else {
            if in_walk(w2, v) {
                let j = choose|j: int| 0 <= j < w2.len() && #[trigger] w2[j] as int == v;
                assert(j < w.len());
                assert(w[j] == w2[j]);
            }
            if in_walk(w, v) {
                let j = choose|j: int| 0 <= j < w.len() && #[trigger] w[j] as int == v;
                assert(w2[j] == w[j]);
            }
        }
    }
    assert forall|k1: int, k2: int| 0 <= k1 < k2 < w2.len() implies w2[k1] != w2[k2] by {
        if k2 == w.len() {
            assert(w2[k1] == w[k1]);
            if w[k1] == current {
                assert(in_walk(w, current as int));
            }
        }
    }
    assert forall|k: int| 0 <= k < w2.len() - 1 implies step(next, #[trigger] w2[k]) == Some(w2[k + 1]) by {
        assert(w2[k] == w[k]);
        if k < w.len() - 1 {
        } else {
            assert(w[k] == w.last());
        }
    }
}

/// Settling a finished walk keeps what the walk over all tokens holds.
proof fn lemma_settle_keeps(
    next: Seq<Option<usize>>,
    state: Seq<u8>,
    w: Seq<usize>,
    cs: Seq<Seq<usize>>,
    end: Option<usize>,
    cycle: Seq<usize>,
    start: usize,
)
    requires
        graph_ok(next),
        state.len() == next.len(),
        start < next.len(),
        forall|v: int| 0 <= v < next.len() ==> state[v] == 0u8 || state[v] == 1u8 || state[v] == 2u8,
        forall|v: int| 0 <= v < next.len() ==> (state[v] == 1u8 <==> in_walk(w, v)),
        forall|v: int| 0 <= v < start ==> state[v] == 2u8,
        state[start as int] == 2u8 || in_walk(w, start as int),
        is_path(next, w),
        w.len() > 0 ==> step(next, w.last()) == end,
        end matches Some(e) ==> e < next.len() && (state[e as int] == 2u8 || in_walk(w, e as int)),
        closed(next, state),
        listed(next, state, cs),
        complete(next, state, cs),
        forall|j: int| 0 <= j < w.len() && on_cycle(next, #[trigger] w[j]) ==> cycle.contains(w[j]),
        cycle.len() > 0 ==> is_cycle(next, cycle),
        forall|k1: int, k2: int| 0 <= k1 < k2 < cycle.len() ==> cycle[k1] != cycle[k2],
        forall|k: int| 0 <= k < cycle.len() ==> in_walk(w, #[trigger] cycle[k] as int),
    ensures
        ({
            let after = settled(state, w);
            let cs2 = if cycle.len() > 0 { cs.push(cycle) } else { cs };
            &&& after.len() == next.len()
            &&& forall|v: int| 0 <= v < next.len() ==> after[v] == 0u8 || after[v] == 2u8
            &&& after[start as int] == 2u8
            &&& forall|v: int| 0 <= v < start ==> after[v] == 2u8
            &&& closed(next, after)
            &&& listed(next, after, cs2)
            &&& complete(next, after, cs2)
        }),
{
    let n = next.len();
    let after = settled(state, w);
    let cs2 = if cycle.len() > 0 { cs.push(cycle) } else { cs };
    assert forall|v: int| 0 <= v < n implies after[v] == 0u8 || after[v] == 2u8 by {
        if !in_walk(w, v) {
            assert(state[v] != 1u8);
        }
    }
    assert forall|u: int| 0 <= u < n && after[u] == 2u8 && (#[trigger] next[u]) is Some implies after[next[u]->0 as int]
        == 2u8 by {
        let t = next[u]->0;
        assert(t < n);
        if in_walk(w, u) {
            let k = choose|k: int| 0 <= k < w.len() && #[trigger] w[k] as int == u;
            assert(w[k] < n);
            assert(step(next, w[k]) == next[u]);
            if k < w.len() - 1 {
                assert(step(next, w[k]) == Some(w[k + 1]));
                assert(in_walk(w, w[k + 1] as int));
            } else {
                assert(w.last() == w[k]);
                assert(end == Some(t));
            }
        } else {
            assert(state[u] == 2u8);
        }
    }
    assert forall|i: int| 0 <= i < cs2.len() implies is_cycle(next, #[trigger] cs2[i]) by {
        if i < cs.len() {
            assert(cs2[i] == cs[i]);
        }
    }
    assert forall|i: int, k: int| 0 <= i < cs2.len() && 0 <= k < cs2[i].len() implies after[#[trigger] cs2[i][k] as int]
        == 2u8 by {
        if i < cs.len() {
            assert(cs2[i] == cs[i]);
            assert(state[cs[i][k] as int] == 2u8);
            assert(cs[i][k] < n);
        } else {
            assert(cs2[i] == cycle);
            assert(in_walk(w, cycle[k] as int));
            let j = choose|j: int| 0 <= j < w.len() && #[trigger] w[j] as int == cycle[k] as int;
            assert(w[j] < n);
        }
    }
    assert(distinct_members(cs2)) by {
        assert forall|i1: int, k1: int, i2: int, k2: int|
            0 <= i1 < cs2.len() && 0 <= k1 < cs2[i1].len() && 0 <= i2 < cs2.len() && 0 <= k2
                < cs2[i2].len() && (i1 != i2 || k1 != k2) implies #[trigger] cs2[i1][k1] != #[trigger] cs2[i2][k2] by {
            if i1 < cs.len() && i2 < cs.len() {
                assert(cs2[i1] == cs[i1] && cs2[i2] == cs[i2]);
                assert(cs[i1][k1] != cs[i2][k2]);
            } else if i1 < cs.len() {
                assert(cs2[i1] == cs[i1] && cs2[i2] == cycle);
                assert(state[cs[i1][k1] as int] == 2u8);
                assert(cs[i1][k1] < n);
                assert(in_walk(w, cycle[k2] as int));
                assert(cycle[k2] < n) by {
                    let j = choose|j: int| 0 <= j < w.len() && #[trigger] w[j] as int == cycle[k2] as int;
                    assert(w[j] < n);
                }
                assert(state[cycle[k2] as int] == 1u8);
            } else if i2 < cs.len() {
                assert(cs2[i2] == cs[i2] && cs2[i1] == cycle);
                assert(state[cs[i2][k2] as int] == 2u8);
                assert(cs[i2][k2] < n);
                assert(in_walk(w, cycle[k1] as int));
                assert(cycle[k1] < n) by {
                    let j = choose|j: int| 0 <= j < w.len() && #[trigger] w[j] as int == cycle[k1] as int;
                    assert(w[j] < n);
                }
                assert(state[cycle[k1] as int] == 1u8);
            } else {
                assert(cs2[i1] == cycle && cs2[i2] == cycle);
                if k1 < k2 {
                } else {
                }
            }
        }
    }
    assert forall|v: usize| v < n && after[v as int] == 2u8 && #[trigger] on_cycle(next, v) implies reported(cs2, v) by {
        if in_walk(w, v as int) {
            let j = choose|j: int| 0 <= j < w.len() && #[trigger] w[j] as int == v as int;
            assert(w[j] == v);
            assert(on_cycle(next, w[j]));
            assert(cycle.contains(v));
            let k = choose|k: int| 0 <= k < cycle.len() && cycle[k] == v;
            assert(cs2[cs.len() as int] == cycle);
            assert(cs2[cs.len() as int][k] == v);
        } else {
            assert(state[v as int] == 2u8);
            assert(reported(cs, v));
            let (i, k) = choose|i: int, k: int| 0 <= i < cs.len() && 0 <= k < cs[i].len() && #[trigger] cs[i][k] == v;
            assert(cs2[i] == cs[i]);
            assert(cs2[i][k] == v);
        }
    }
    if !in_walk(w, start as int) {
        assert(after[start as int] == state[start as int]);
    } else {
        assert(after[start as int] == 2u8);
    }
}

/// A bound that holds holds for a larger one too.
proof fn lemma_met_below_more(next: Seq<Option<usize>>, cs: Seq<Seq<usize>>, bound: int)
    requires
        met_below(next, cs, bound),
    ensures
        met_below(next, cs, bound + 1),
{
    assert forall|i: int| 0 <= i < cs.len() implies #[trigger] met_by(next, cs[i], bound + 1) by {
        assert(met_by(next, cs[i], bound));
        let v = choose|v: usize| v < bound && #[trigger] leads_to(next, v, cs[i]);
        assert(leads_to(next, v, cs[i]));
    }
}

/// The cycle that the walk from `start` closes is met at `start` and no earlier: every
/// token before `start` is settled, and settled tokens lead only to settled ones.
proof fn lemma_new_cycle_met(
    next: Seq<Option<usize>>,
    state: Seq<u8>,
    w: Seq<usize>,
    cs: Seq<Seq<usize>>,
    current: usize,
    at: int,
    start: usize,
)
    requires
        graph_ok(next),
        state.len() == next.len(),
        start < next.len(),
        is_path(next, w),
        w.len() > 0,
        w[0] == start,
        step(next, w.last()) == Some(current),
        0 <= at < w.len(),
        w[at] == current,
        forall|v: int| 0 <= v < next.len() ==> (state[v] == 1u8 <==> in_walk(w, v)),
        forall|v: int| 0 <= v < start ==> state[v] == 2u8,
        closed(next, state),
        met_in_order(next, cs),
        met_below(next, cs, start as int),
    ensures
        met_in_order(next, cs.push(w.subrange(at, w.len() as int))),
        met_below(next, cs.push(w.subrange(at, w.len() as int)), start + 1),
{
    let c = w.subrange(at, w.len() as int);
    let cs2 = cs.push(c);
    let n = next.len();
    assert forall|k: int| 0 <= k < c.len() implies in_walk(w, #[trigger] c[k] as int) by {
        assert(w[at + k] == c[k]);
    }
    assert forall|x: usize| x < n && state[x as int] == 2u8 implies !#[trigger] leads_to(next, x, c) by {
        if leads_to(next, x, c) {
            let k = choose|k: nat| #![trigger reach(next, x, k)] reach(next, x, k) is Some && c.contains(reach(next, x, k)->0);
            lemma_settled_closed(next, state, x, k);
            let u = reach(next, x, k)->0;
            let m = choose|m: int| 0 <= m < c.len() && c[m] == u;
            assert(in_walk(w, c[m] as int));
            assert(state[u as int] == 1u8);
        }
    }
    assert forall|i: int, j: int, x: usize|
        #![trigger cs2[i], leads_to(next, x, cs2[j])]
        0 <= i < j < cs2.len() && x < n && leads_to(next, x, cs2[j]) implies met_by(next, cs2[i], x as int) by {
        assert(cs2[i] == cs[i]);
        if j < cs.len() {
            assert(cs2[j] == cs[j]);
            assert(leads_to(next, x, cs[j]));
            assert(met_by(next, cs[i], x as int));
        } else {
            assert(cs2[j] == c);
            if x < start {
                assert(state[x as int] == 2u8);
            }
            assert(met_by(next, cs[i], start as int));
            let v = choose|v: usize| v < start && #[trigger] leads_to(next, v, cs[i]);
            assert(leads_to(next, v, cs[i]));
        }
    }
    assert(met_in_order(next, cs2));
    lemma_path_reach(next, w, Some(current), 0, at as nat);
    assert(reach(next, start, at as nat) == Some(w[at]));
    assert(c[0] == w[at]);
    assert(c.contains(w[at]));
    assert(leads_to(next, start, c));
    assert forall|i: int| 0 <= i < cs2.len() implies #[trigger] met_by(next, cs2[i], start + 1) by {
        if i < cs.len() {
            assert(cs2[i] == cs[i]);
            assert(met_by(next, cs[i], start as int));
            let v = choose|v: usize| v < start && #[trigger] leads_to(next, v, cs[i]);
            assert(leads_to(next, v, cs[i]));
        } else {
            assert(cs2[i] == c);
        }
    }
}

/// Every cycle in the graph, each listed once, in the order its references run.
///
/// Following the one edge out of each token in path order, and stopping when the walk meets
/// its own path, finds each cycle exactly once: a cycle is reported exactly when the graph
/// has one, no token is in two reported cycles, and a cycle comes before another when some
/// token leading into it comes before every token leading into the other.
pub fn cycles(next: &Vec<Option<usize>>) -> (found: Vec<Vec<usize>>)
    requires
        graph_ok(next@),
    ensures
        forall|i: int| 0 <= i < found@.len() ==> is_cycle(next@, #[trigger] found@[i]@),
        distinct_members(cycle_views(found@)),
        forall|v: usize| v < next@.len() ==> (on_cycle(next@, v) <==> reported(cycle_views(found@), v)),
        met_in_order(next@, cycle_views(found@)),
{
    let n = next.len();
    let mut state: Vec<u8> = Vec::new();
    while state.len() < n
        invariant
            state@.len() <= n,
            n == next@.len(),
            forall|v: int| 0 <= v < state@.len() ==> state@[v] == 0u8,
        decreases n - state@.len(),
    {
        state.push(0u8);
    }
    let mut found: Vec<Vec<usize>> = Vec::new();
    proof {
        assert(cycle_views(found@) =~= Seq::<Seq<usize>>::empty());
    }
    let mut start: usize = 0;
    while start < n
        invariant
            n == next@.len(),
            graph_ok(next@),
            start <= n,
            state@.len() == n,
            forall|v: int| 0 <= v < n ==> state@[v] == 0u8 || state@[v] == 2u8,
            forall|v: int| 0 <= v < start ==> state@[v] == 2u8,
            closed(next@, state@),
            listed(next@, state@, cycle_views(found@)),
            complete(next@, state@, cycle_views(found@)),
            met_in_order(next@, cycle_views(found@)),
            met_below(next@, cycle_views(found@), start as int),
        decreases n - start,
    {
        let mut walked: Vec<usize> = Vec::new();
        let mut current: usize = start;
        let ghost before = state@;
        proof {
            lemma_met_below_more(next@, cycle_views(found@), start as int);
        }
        loop
            invariant_except_break
                forall|v: int| 0 <= v < n ==> state@[v] == 0u8 || state@[v] == 1u8 || state@[v] == 2u8,
                forall|v: int| 0 <= v < n ==> (state@[v] == 2u8 <==> before[v] == 2u8),
                forall|v: int| 0 <= v < n ==> (state@[v] == 1u8 <==> in_walk(walked@, v)),
                is_path(next@, walked@),
                current < n,
                walked@.len() == 0 ==> current == start,
                walked@.len() > 0 ==> walked@[0] == start,
                walked@.len() > 0 ==> step(next@, walked@.last()) == Some(current),
                forall|v: int| 0 <= v < n ==> before[v] == 0u8 || before[v] == 2u8,
                met_below(next@, cycle_views(found@), start as int),
            invariant
                n == next@.len(),
                graph_ok(next@),
                start < n,
                state@.len() == n,
                forall|v: int| 0 <= v < start ==> state@[v] == 2u8,
                closed(next@, state@),
                listed(next@, state@, cycle_views(found@)),
                complete(next@, state@, cycle_views(found@)),
                met_in_order(next@, cycle_views(found@)),
                met_below(next@, cycle_views(found@), start + 1),
            ensures
                forall|v: int| 0 <= v < n ==> state@[v] == 0u8 || state@[v] == 2u8,
                state@[start as int] == 2u8,
            decreases count_unmet(state@),
        {
            if state[current] == 2u8 {
                proof {
                    assert forall|k: int| 0 <= k < walked@.len() implies state@[#[trigger] walked@[k] as int] != 2u8 by {
                        assert(in_walk(walked@, walked@[k] as int));
                    }
                }
                let ghost old_state = state@;
                proof {
                    if walked@.len() > 0 {
                        assert(in_walk(walked@, walked@[0] as int));
                    }
                    assert forall|j: int| 0 <= j < walked@.len() && on_cycle(next@, #[trigger] walked@[j]) implies Seq::<usize>::empty().contains(walked@[j]) by {
                        if walked@.len() > 0 {
                            lemma_not_on_cycle_settled(next@, state@, walked@, current, j);
                        }
                    }
                }
                settle(&mut state, &walked);
                proof {
                    lemma_settle_keeps(next@, old_state, walked@, cycle_views(found@), Some(current), Seq::empty(), start);
                }
                break;
            }
            if state[current] == 1u8 {
                let at = position(&walked, current);
                let mut cycle: Vec<usize> = Vec::new();
                let mut k: usize = at;
                while k < walked.len()
                    invariant
                        at <= k <= walked@.len(),
                        cycle@ == walked@.subrange(at as int, k as int),
                    decreases walked@.len() - k,
                {
                    cycle.push(walked[k]);
                    proof {
                        assert(walked@.subrange(at as int, k + 1) =~= walked@.subrange(at as int, k as int).push(walked@[k as int]));
                    }
                    k = k + 1;
                }
                let ghost old_state = state@;
                let ghost old_cs = cycle_views(found@);
                proof {
                    let c = walked@.subrange(at as int, walked@.len() as int);
                    assert forall|j: int| 0 <= j < walked@.len() && on_cycle(next@, #[trigger] walked@[j]) implies c.contains(walked@[j]) by {
                        if j < at {
                            lemma_walk_cycle(next@, walked@, at as int, j);
                        } else {
                            assert(c[j - at] == walked@[j]);
                        }
                    }
                    assert forall|k: int| 0 <= k < c.len() implies in_walk(walked@, #[trigger] c[k] as int) by {
                        assert(walked@[at + k] == c[k]);
                    }
                    assert forall|k1: int, k2: int| 0 <= k1 < k2 < c.len() implies c[k1] != c[k2] by {
                        assert(c[k1] == walked@[at + k1] && c[k2] == walked@[at + k2]);
                    }
                    lemma_loop_is_cycle(next@, walked@, at as int);
                    assert(in_walk(walked@, walked@[0] as int));
                }
                proof {
                    lemma_new_cycle_met(next@, state@, walked@, old_cs, current, at as int, start);
                }
                found.push(cycle);
                proof {
                    assert(cycle_views(found@) =~= old_cs.push(walked@.subrange(at as int, walked@.len() as int)));
                }
                settle(&mut state, &walked);
                proof {
                    lemma_settle_keeps(next@, old_state, walked@, old_cs, Some(current), walked@.subrange(at as int, walked@.len() as int), start);
                }
                break;
            }
            proof {
                lemma_count_unmet(state@, current as int, 1u8);
            }
            let ghost w0 = walked@;
            let ghost s0 = state@;
            state.set(current, 1u8);
            walked.push(current);
            proof {
                lemma_walk_step(next@, before, s0, w0, current, start);
            }
            match next[current] {
                Some(w) => {
                    current = w;
                },
                None => {
                    let ghost old_state = state@;
                    proof {
                        assert(in_walk(walked@, walked@[0] as int));
                        assert forall|j: int| 0 <= j < walked@.len() && on_cycle(next@, #[trigger] walked@[j]) implies Seq::<usize>::empty().contains(walked@[j]) by {
                            lemma_not_on_cycle_ended(next@, walked@, j);
                        }
                    }
                    settle(&mut state, &walked);
                    proof {
                        lemma_settle_keeps(next@, old_state, walked@, cycle_views(found@), None, Seq::empty(), start);
                    }
                    break;
                },
            }
        }
        start = start + 1;
    }
    proof {
        assert forall|i: int| 0 <= i < found@.len() implies is_cycle(next@, #[trigger] found@[i]@) by {
            assert(cycle_views(found@)[i] == found@[i]@);
        }
        assert forall|v: usize| v < next@.len() implies (on_cycle(next@, v) <==> reported(cycle_views(found@), v)) by {
            if reported(cycle_views(found@), v) {
                let cs = cycle_views(found@);
                let (i, k) = choose|i: int, k: int| 0 <= i < cs.len() && 0 <= k < cs[i].len() && #[trigger] cs[i][k] == v;
                lemma_cycle_members(next@, cs[i], k);
            }
        }
    }
    found
}

/// Where `key` stands among the keys of `entries`.
pub open spec fn key_index<V>(entries: Seq<(Seq<char>, V)>, key: Seq<char>) -> Option<usize> {
    if exists|j: int| 0 <= j < entries.len() && #[trigger] entries[j].0 == key {
        Some((choose|j: int| 0 <= j < entries.len() && #[trigger] entries[j].0 == key) as usize)
    } else {
        None
    }
}

/// The definitions as plain values: path, then value and line.
pub type Defs = Seq<(Seq<char>, (RawView, usize))>;

/// The reference graph of `defs`: the token each one references, when that is defined.
pub open spec fn next_spec(defs: Defs) -> Seq<Option<usize>> {
    Seq::new(
        defs.len(),
        |i: int|
            match defs[i].1.0 {
                RawView::Reference(t) => key_index(defs, t),
                RawView::Literal(_) => None,
            },
    )
}

/// The problems with the references of the first `k` definitions: each one naming a
/// namespace, or naming nothing, in path order.
pub open spec fn graph_problems(defs: Defs, namespaces: Seq<(Seq<char>, usize)>, k: int) -> Seq<
    ProblemView,
>
    decreases k,
{
    if k <= 0 || k > defs.len() {
        Seq::empty()
    } else {
        let before = graph_problems(defs, namespaces, k - 1);
        let path = defs[k - 1].0;
        let line = defs[k - 1].1.1 as nat;
        match defs[k - 1].1.0 {
            RawView::Reference(t) => if key_index(defs, t) is Some {
                before
            } else if lookup(namespaces, t) is Some {
                before.push(ProblemView::Namespace { path, line, target: t })
            } else {
                before.push(ProblemView::Undefined { path, line, target: t })
            },
            RawView::Literal(_) => before,
        }
    }
}

/// The index of the first smallest of `lines`.
pub open spec fn first_min(lines: Seq<usize>) -> int
    decreases lines.len(),
{
    if lines.len() <= 1 {
        0
    } else {
        let best = first_min(lines.drop_last());
        if lines.last() < lines[best] {
            lines.len() - 1
        } else {
            best
        }
    }
}

proof fn lemma_first_min(lines: Seq<usize>)
    requires
        lines.len() > 0,
    ensures
        0 <= first_min(lines) < lines.len(),
        forall|k: int| 0 <= k < lines.len() ==> lines[first_min(lines)] <= #[trigger] lines[k],
    decreases lines.len(),
{
    if lines.len() > 1 {
        lemma_first_min(lines.drop_last());
        let best = first_min(lines.drop_last());
        assert(lines.drop_last()[best] == lines[best]);
        assert forall|k: int| 0 <= k < lines.len() implies lines[first_min(lines)] <= #[trigger] lines[k] by {
            if k < lines.len() - 1 {
                assert(lines.drop_last()[k] == lines[k]);
            }
        }
    }
}

/// A cycle written from the member the file states first, so the line and the first token
/// named are the same place.
pub open spec fn cycle_view(defs: Defs, c: Seq<usize>) -> ProblemView {
    let paths = c.map_values(|m: usize| defs[m as int].0);
    let lines = c.map_values(|m: usize| defs[m as int].1.1);
    let first = first_min(lines);
    ProblemView::Cycle {
        members: paths.subrange(first, paths.len() as int) + paths.subrange(0, first),
        line: lines[first] as nat,
    }
}

/// The walk's definitions as plain values.
pub open spec fn defs_of(definitions: PathMap<Definition>) -> Defs {
    definition_views(definitions.view_entries())
}

proof fn lemma_defs_sorted(definitions: PathMap<Definition>)
    requires
        definitions.well_formed(),
    ensures
        strictly_sorted(defs_of(definitions)),
        defs_of(definitions).len() == definitions.view_entries().len(),
{
    definitions.lemma_sorted();
    let d = defs_of(definitions);
    let e = definitions.view_entries();
    assert forall|i: int, j: int| 0 <= i < j < d.len() implies crate::path_map::text_less(
        #[trigger] d[i].0,
        #[trigger] d[j].0,
    ) by {
        assert(d[i].0 == e[i].0 && d[j].0 == e[j].0);
    }
}

/// The graph of `definitions`, and every reference that names a namespace or nothing.
fn graph(definitions: &PathMap<Definition>, namespaces: &PathMap<usize>) -> (result: (
    Vec<Option<usize>>,
    Vec<Problem>,
))
    requires
        definitions.well_formed(),
        namespaces.well_formed(),
    ensures
        result.0@ == next_spec(defs_of(*definitions)),
        problem_views(result.1@) == graph_problems(
            defs_of(*definitions),
            namespaces.view_entries(),
            defs_of(*definitions).len() as int,
        ),
{
    let ghost defs = defs_of(*definitions);
    proof {
        lemma_defs_sorted(*definitions);
    }
    let n = definitions.len();
    let mut next: Vec<Option<usize>> = Vec::new();
    let mut problems: Vec<Problem> = Vec::new();
    let mut i: usize = 0;
    while i < n
        invariant
            i <= n,
            n == defs.len(),
            defs == defs_of(*definitions),
            strictly_sorted(defs),
            definitions.well_formed(),
            namespaces.well_formed(),
            next@ == next_spec(defs).take(i as int),
            problem_views(problems@) == graph_problems(defs, namespaces.view_entries(), i as int),
        decreases n - i,
    {
        let entry = definitions.entry(i);
        let ghost here = defs[i as int];
        assert(here.0 == entry.0@ && here.1 == entry.1@);
        let edge = match &entry.1.value {
            RawValue::Reference(target) => {
                let at = definitions.find(target);
                match at {
                    Some(j) => {
                        proof {
                            assert(defs[j as int].0 == target@);
                            assert(key_index(defs, target@) == Some(j)) by {
                                let c = choose|c: int| 0 <= c < defs.len() && #[trigger] defs[c].0 == target@;
                                lemma_sorted_unique(defs, c, j as int);
                            }
                        }
                    },
                    None => {
                        proof {
                            assert forall|c: int| 0 <= c < defs.len() implies #[trigger] defs[c].0 != target@ by {
                                assert(defs[c].0 == definitions.view_entries()[c].0);
                            }
                        }
                        let ghost before = problem_views(problems@);
                        if namespaces.contains(target) {
                            problems.push(Problem::Namespace {
                                path: entry.0.clone(),
                                line: entry.1.line,
                                target: target.clone(),
                            });
                        } else {
                            problems.push(Problem::Undefined {
                                path: entry.0.clone(),
                                line: entry.1.line,
                                target: target.clone(),
                            });
                        }
                        proof {
                            assert(problem_views(problems@) =~= before.push(problems@.last()@));
                        }
                    },
                }
                at
            },
            RawValue::Literal(_) => None,
        };
        next.push(edge);
        proof {
            assert(next_spec(defs).take(i + 1) =~= next_spec(defs).take(i as int).push(edge));
        }
        i = i + 1;
    }
    proof {
        assert(next_spec(defs).take(n as int) =~= next_spec(defs));
    }
    (next, problems)
}

/// The cycle `members` as a problem, written from the member the file states first.
fn cycle_problem(definitions: &PathMap<Definition>, members: &Vec<usize>) -> (problem: Problem)
    requires
        definitions.well_formed(),
        members@.len() > 0,
        forall|k: int| 0 <= k < members@.len() ==> #[trigger] members@[k] < definitions.view_entries().len(),
    ensures
        problem@ == cycle_view(defs_of(*definitions), members@),
{
    let ghost defs = defs_of(*definitions);
    let ghost lines_spec = members@.map_values(|m: usize| defs[m as int].1.1);
    let ghost paths_spec = members@.map_values(|m: usize| defs[m as int].0);
    let len = members.len();
    let mut first: usize = 0;
    let mut k: usize = 1;
    while k < len
        invariant
            1 <= k <= len,
            len == members@.len(),
            first < k,
            defs == defs_of(*definitions),
            lines_spec == members@.map_values(|m: usize| defs[m as int].1.1),
            forall|j: int| 0 <= j < members@.len() ==> #[trigger] members@[j] < definitions.view_entries().len(),
            first as int == first_min(lines_spec.take(k as int)),
        decreases len - k,
    {
        let here = definitions.entry(members[k]).1.line;
        let best = definitions.entry(members[first]).1.line;
        proof {
            assert(here == lines_spec[k as int]);
            assert(best == lines_spec[first as int]);
            assert(lines_spec.take(k + 1).drop_last() =~= lines_spec.take(k as int));
            assert(lines_spec.take(k + 1)[first as int] == lines_spec[first as int]);
        }
        if here < best {
            first = k;
        }
        k = k + 1;
    }
    proof {
        assert(lines_spec.take(len as int) =~= lines_spec);
    }
    let line = definitions.entry(members[first]).1.line;
    let mut paths: Vec<TokenPath> = Vec::new();
    let mut j: usize = first;
    while j < len
        invariant
            first <= j <= len,
            len == members@.len(),
            defs == defs_of(*definitions),
            paths_spec == members@.map_values(|m: usize| defs[m as int].0),
            forall|i: int| 0 <= i < members@.len() ==> #[trigger] members@[i] < definitions.view_entries().len(),
            crate::theme::problem::path_views(paths@) == paths_spec.subrange(first as int, j as int),
        decreases len - j,
    {
        let path = definitions.entry(members[j]).0.clone();
        let ghost before = crate::theme::problem::path_views(paths@);
        paths.push(path);
        proof {
            assert(crate::theme::problem::path_views(paths@) =~= before.push(paths_spec[j as int]));
            assert(paths_spec.subrange(first as int, j + 1) =~= paths_spec.subrange(first as int, j as int).push(paths_spec[j as int]));
        }
        j = j + 1;
    }
    j = 0;
    while j < first
        invariant
            j <= first < len,
            len == members@.len(),
            defs == defs_of(*definitions),
            paths_spec == members@.map_values(|m: usize| defs[m as int].0),
            forall|i: int| 0 <= i < members@.len() ==> #[trigger] members@[i] < definitions.view_entries().len(),
            crate::theme::problem::path_views(paths@) == paths_spec.subrange(first as int, len as int) + paths_spec.subrange(0, j as int),
        decreases first - j,
    {
        let path = definitions.entry(members[j]).0.clone();
        let ghost before = crate::theme::problem::path_views(paths@);
        paths.push(path);
        proof {
            assert(crate::theme::problem::path_views(paths@) =~= before.push(paths_spec[j as int]));
            assert(paths_spec.subrange(0, j + 1) =~= paths_spec.subrange(0, j as int).push(paths_spec[j as int]));
        }
        j = j + 1;
    }
    Problem::Cycle { members: paths, line }
}

/// The cycles of `next` are reported as the walk over all tokens in path order reports them:
/// each cycle once, and in the order the walk meets them.
pub open spec fn cycle_report(next: Seq<Option<usize>>, cs: Seq<Seq<usize>>) -> bool {
    &&& forall|i: int| 0 <= i < cs.len() ==> is_cycle(next, #[trigger] cs[i])
    &&& distinct_members(cs)
    &&& forall|v: usize| v < next.len() ==> (on_cycle(next, v) <==> reported(cs, v))
    &&& met_in_order(next, cs)
}

/// Every problem in the reference graph: the references that name a namespace or nothing,
/// in path order, then each cycle once.
///
/// A cycle is reported exactly when the graph has one, every token on a cycle is in exactly
/// one reported cycle, each is written from the member the file states first, and the cycles
/// come in the order of the first token, in path order, whose references lead into them.
pub fn problems(definitions: &PathMap<Definition>, namespaces: &PathMap<usize>) -> (problems: Vec<Problem>)
    requires
        definitions.well_formed(),
        namespaces.well_formed(),
    ensures
        exists|cs: Seq<Seq<usize>>|
            cycle_report(next_spec(defs_of(*definitions)), cs) && #[trigger] problem_views(problems@)
                == graph_problems(
                defs_of(*definitions),
                namespaces.view_entries(),
                defs_of(*definitions).len() as int,
            ) + cs.map_values(|c: Seq<usize>| cycle_view(defs_of(*definitions), c)),
{
    let ghost defs = defs_of(*definitions);
    let (next, mut problems) = graph(definitions, namespaces);
    proof {
        lemma_defs_sorted(*definitions);
        assert forall|v: int| 0 <= v < next@.len() && (#[trigger] next@[v]) is Some implies next@[v]->0 < next@.len() by {
            let t = defs[v].1.0->Reference_0;
            let c = choose|c: int| 0 <= c < defs.len() && #[trigger] defs[c].0 == t;
        }
    }
    let found = cycles(&next);
    let ghost cs = cycle_views(found@);
    let ghost base = problem_views(problems@);
    let mut i: usize = 0;
    while i < found.len()
        invariant
            i <= found@.len(),
            definitions.well_formed(),
            defs == defs_of(*definitions),
            next@ == next_spec(defs),
            cs == cycle_views(found@),
            forall|c: int| 0 <= c < found@.len() ==> is_cycle(next@, #[trigger] found@[c]@),
            problem_views(problems@) == base + cs.take(i as int).map_values(|c: Seq<usize>| cycle_view(defs, c)),
        decreases found@.len() - i,
    {
        proof {
            assert(is_cycle(next@, found@[i as int]@));
            assert forall|k: int| 0 <= k < found@[i as int]@.len() implies #[trigger] found@[i as int]@[k] < definitions.view_entries().len() by {
                assert(found@[i as int]@[k] < next@.len());
            }
        }
        let problem = cycle_problem(definitions, &found[i]);
        let ghost before = problem_views(problems@);
        problems.push(problem);
        proof {
            assert(problem_views(problems@) =~= before.push(problem@));
            assert(cs[i as int] == found@[i as int]@);
            assert(cs.take(i + 1).map_values(|c: Seq<usize>| cycle_view(defs, c)) =~= cs.take(i as int).map_values(
                |c: Seq<usize>| cycle_view(defs, c),
            ).push(cycle_view(defs, cs[i as int])));
        }
        i = i + 1;
    }
    proof {
        assert(cs.take(found@.len() as int) =~= cs);
        assert(cycle_report(next_spec(defs), cs));
    }
    problems
}

/// What following references from `v` settles on, with `fuel` steps to spend: the literal
/// the chain ends in, or nothing when it ends at a missing token or runs out.
pub open spec fn chase(defs: Defs, v: usize, fuel: nat) -> Seq<char>
    decreases fuel,
{
    if fuel == 0 || v >= defs.len() {
        Seq::empty()
    } else {
        match defs[v as int].1.0 {
            RawView::Literal(t) => t,
            RawView::Reference(_) => match next_spec(defs)[v as int] {
                Some(w) => chase(defs, w, (fuel - 1) as nat),
                None => Seq::empty(),
            },
        }
    }
}

/// Each token paired with what it resolves to, in path order. No chain of distinct tokens is
/// longer than there are tokens, so as many steps as tokens always reach a chain's end in a
/// graph without cycles.
pub open spec fn resolved_pairs(defs: Defs) -> Seq<(Seq<char>, Seq<char>)> {
    Seq::new(defs.len(), |i: int| (defs[i].0, chase(defs, i as usize, defs.len())))
}

/// What token `v` resolves to, following at most `fuel` references.
fn chase_exec(definitions: &PathMap<Definition>, next: &Vec<Option<usize>>, v: usize, fuel: usize) -> (value: String)
    requires
        definitions.well_formed(),
        next@ == next_spec(defs_of(*definitions)),
        v < next@.len(),
        graph_ok(next@),
    ensures
        value@ == chase(defs_of(*definitions), v, fuel as nat),
{
    let ghost defs = defs_of(*definitions);
    proof {
        lemma_defs_sorted(*definitions);
    }
    let mut current = v;
    let mut left = fuel;
    while left > 0
        invariant
            definitions.well_formed(),
            defs == defs_of(*definitions),
            defs.len() == definitions.view_entries().len(),
            next@ == next_spec(defs),
            graph_ok(next@),
            current < next@.len(),
            chase(defs, current, left as nat) == chase(defs, v, fuel as nat),
        decreases left,
    {
        let entry = definitions.entry(current);
        assert(defs[current as int].1 == entry.1@);
        match &entry.1.value {
            RawValue::Literal(text) => {
                return text.clone();
            },
            RawValue::Reference(_) => {
                match next[current] {
                    Some(w) => {
                        current = w;
                        left = left - 1;
                    },
                    None => {
                        return String::new();
                    },
                }
            },
        }
    }
    String::new()
}

/// Follows every reference down to the literal it names.
///
/// Callers resolve only a graph `problems` found nothing wrong with: without cycles, every
/// chain ends within as many steps as there are tokens.
pub fn resolve(definitions: &PathMap<Definition>) -> (tokens: Tokens)
    requires
        definitions.well_formed(),
    ensures
        tokens@ == pairs_map(resolved_pairs(defs_of(*definitions))),
{
    let ghost defs = defs_of(*definitions);
    let empty: PathMap<usize> = PathMap::new();
    let (next, _) = graph(definitions, &empty);
    proof {
        lemma_defs_sorted(*definitions);
        assert forall|v: int| 0 <= v < next@.len() && (#[trigger] next@[v]) is Some implies next@[v]->0 < next@.len() by {
            let t = defs[v].1.0->Reference_0;
            let c = choose|c: int| 0 <= c < defs.len() && #[trigger] defs[c].0 == t;
        }
    }
    let n = definitions.len();
    let mut pairs: Vec<(TokenPath, String)> = Vec::new();
    let mut i: usize = 0;
    while i < n
        invariant
            i <= n,
            n == defs.len(),
            definitions.well_formed(),
            defs == defs_of(*definitions),
            next@ == next_spec(defs),
            graph_ok(next@),
            entry_views(pairs@) == resolved_pairs(defs).take(i as int),
        decreases n - i,
    {
        let value = chase_exec(definitions, &next, i, n);
        let path = definitions.entry(i).0.clone();
        let ghost before = entry_views(pairs@);
        pairs.push((path, value));
        proof {
            assert(entry_views(pairs@) =~= before.push((path@, value@)));
            assert(resolved_pairs(defs).take(i + 1) =~= resolved_pairs(defs).take(i as int).push(
                resolved_pairs(defs)[i as int],
            ));
        }
        i = i + 1;
    }
    proof {
        assert(resolved_pairs(defs).take(n as int) =~= resolved_pairs(defs));
    }
    Tokens::from_pairs(pairs)
}

/// Following references stays among the tokens.
proof fn lemma_reach_in_range(next: Seq<Option<usize>>, v: usize, k: nat)
    requires
        graph_ok(next),
        v < next.len(),
    ensures
        reach(next, v, k) matches Some(u) ==> u < next.len(),
    decreases k,
{
    if k > 0 {
        lemma_reach_in_range(next, v, (k - 1) as nat);
    }
}

/// No more distinct tokens than there are tokens.
proof fn lemma_pigeonhole(w: Seq<usize>, n: nat)
    requires
        forall|k: int| 0 <= k < w.len() ==> (#[trigger] w[k] as int) < n,
        forall|k1: int, k2: int| 0 <= k1 < k2 < w.len() ==> w[k1] != w[k2],
    ensures
        w.len() <= n,
    decreases n,
{
    if n == 0 {
        if w.len() > 0 {
            assert((w[0] as int) < 0);
        }
    } else if exists|p: int| 0 <= p < w.len() && #[trigger] w[p] as int == n - 1 {
        let p = choose|p: int| 0 <= p < w.len() && #[trigger] w[p] as int == n - 1;
        let w2 = w.remove(p);
        assert forall|k: int| 0 <= k < w2.len() implies (#[trigger] w2[k] as int) < n - 1 by {
            if k < p {
                assert(w2[k] == w[k]);
            } else {
                assert(w2[k] == w[k + 1]);
            }
        }
        assert forall|k1: int, k2: int| 0 <= k1 < k2 < w2.len() implies w2[k1] != w2[k2] by {
            let a = if k1 < p { k1 } else { k1 + 1 };
            let b = if k2 < p { k2 } else { k2 + 1 };
            assert(w2[k1] == w[a] && w2[k2] == w[b]);
        }
        lemma_pigeonhole(w2, (n - 1) as nat);
    } else {
        assert forall|k: int| 0 <= k < w.len() implies (#[trigger] w[k] as int) < n - 1 by {
            assert(w[k] as int != n - 1);
        }
        lemma_pigeonhole(w, (n - 1) as nat);
    }
}

/// In a graph without cycles, a chain of references from `v` ends within as many steps as
/// there are tokens.
proof fn lemma_chain_ends(next: Seq<Option<usize>>, v: usize)
    requires
        graph_ok(next),
        v < next.len(),
        forall|u: usize| u < next.len() ==> !#[trigger] on_cycle(next, u),
    ensures
        reach(next, v, next.len()) is None,
{
    let n = next.len();
    if reach(next, v, n) is Some {
        assert forall|m: nat| m <= n implies #[trigger] reach(next, v, m) is Some by {
            if reach(next, v, m) is None {
                lemma_ended(next, v, m, n);
            }
        }
        let w = Seq::new(n + 1, |m: int| reach(next, v, m as nat)->0);
        assert forall|k: int| 0 <= k < w.len() implies (#[trigger] w[k] as int) < n by {
            assert(reach(next, v, k as nat) is Some);
            lemma_reach_in_range(next, v, k as nat);
        }
        assert forall|a: int, b: int| 0 <= a < b < w.len() implies w[a] != w[b] by {
            assert(reach(next, v, a as nat) is Some);
            assert(reach(next, v, b as nat) is Some);
            if w[a] == w[b] {
                let u = w[a];
                lemma_reach_split(next, v, a as nat, (b - a) as nat);
                assert(a as nat + (b - a) as nat == b as nat);
                assert(reach(next, u, (b - a) as nat) == Some(u));
                lemma_reach_in_range(next, v, a as nat);
                assert(on_cycle(next, u));
            }
        }
        lemma_pigeonhole(w, n as nat);
    }
}

/// A chain that starts and later ends has a last token.
proof fn lemma_last_token(next: Seq<Option<usize>>, v: usize, k: nat) -> (m: nat)
    requires
        reach(next, v, k) is None,
    ensures
        m < k,
        reach(next, v, m) is Some,
        reach(next, v, m + 1) is None,
    decreases k,
{
    if reach(next, v, (k - 1) as nat) is Some {
        (k - 1) as nat
    } else {
        lemma_last_token(next, v, (k - 1) as nat)
    }
}

/// With `fuel` past the length of the chain, chasing from `v` settles on the literal the
/// chain ends in.
proof fn lemma_chase_reaches(defs: Defs, v: usize, k: nat, j: usize, fuel: nat)
    requires
        v < defs.len(),
        reach(next_spec(defs), v, k) == Some(j),
        j < defs.len(),
        defs[j as int].1.0 is Literal,
        fuel > k,
        graph_ok(next_spec(defs)),
    ensures
        chase(defs, v, fuel) == defs[j as int].1.0->Literal_0,
    decreases k,
{
    let next = next_spec(defs);
    if k == 0 {
    } else {
        lemma_reach_split(next, v, 1, (k - 1) as nat);
        assert(1 + (k - 1) as nat == k);
        assert(reach(next, v, 0) == Some(v));
        assert(reach(next, v, 1) == step(next, v));
        let w = step(next, v)->0;
        assert(next[v as int] == Some(w));
        assert(defs[v as int].1.0 is Reference);
        lemma_chase_reaches(defs, w, (k - 1) as nat, j, (fuel - 1) as nat);
    }
}

/// The pairs of distinct keys map each key to its own value.
proof fn lemma_distinct_pairs(pairs: Seq<(Seq<char>, Seq<char>)>, i: int)
    requires
        0 <= i < pairs.len(),
        forall|a: int, b: int| 0 <= a < b < pairs.len() ==> pairs[a].0 != pairs[b].0,
    ensures
        pairs_map(pairs).contains_key(pairs[i].0),
        pairs_map(pairs)[pairs[i].0] == pairs[i].1,
{
    lemma_pairs_map_prefix(pairs, i + 1, pairs[i].0);
    assert(pairs.take(i + 1).drop_last() =~= pairs.take(i));
    assert(pairs.take(i + 1).last() == pairs[i]);
}

/// Resolving a graph without cycles, whose every reference names a defined token, gives each
/// token the literal its chain of references ends in.
pub proof fn lemma_resolves_every_token(defs: Defs, i: usize)
    requires
        strictly_sorted(defs),
        i < defs.len(),
        forall|u: usize| u < defs.len() ==> !#[trigger] on_cycle(next_spec(defs), u),
        forall|u: int|
            0 <= u < defs.len() && (#[trigger] defs[u].1.0) is Reference ==> key_index(
                defs,
                defs[u].1.0->Reference_0,
            ) is Some,
    ensures
        exists|k: nat, j: usize|
            #![trigger reach(next_spec(defs), i, k), defs[j as int]]
            reach(next_spec(defs), i, k) == Some(j) && j < defs.len() && defs[j as int].1.0 is Literal
                && pairs_map(resolved_pairs(defs)).contains_key(defs[i as int].0) && pairs_map(
                resolved_pairs(defs),
            )[defs[i as int].0] == defs[j as int].1.0->Literal_0,
{
    let next = next_spec(defs);
    let n = defs.len();
    assert forall|v: int| 0 <= v < next.len() && (#[trigger] next[v]) is Some implies next[v]->0 < next.len() by {
        let t = defs[v].1.0->Reference_0;
        let c = choose|c: int| 0 <= c < defs.len() && #[trigger] defs[c].0 == t;
    }
    lemma_chain_ends(next, i);
    let m = lemma_last_token(next, i, n);
    let j = reach(next, i, m)->0;
    lemma_reach_in_range(next, i, m);
    assert(step(next, j) is None);
    assert(defs[j as int].1.0 is Literal) by {
        if defs[j as int].1.0 is Reference {
            assert(key_index(defs, defs[j as int].1.0->Reference_0) is Some);
        }
    }
    lemma_chase_reaches(defs, i, m, j, n);
    let pairs = resolved_pairs(defs);
    assert forall|a: int, b: int| 0 <= a < b < pairs.len() implies pairs[a].0 != pairs[b].0 by {
        assert(crate::path_map::text_less(defs[a].0, defs[b].0));
        crate::path_map::lemma_less_irreflexive(defs[a].0);
    }
    lemma_distinct_pairs(pairs, i as int);
}

/// Following references from token `i` ends at a literal, which `tokens` gives `i`'s path.
pub open spec fn chain_ends(defs: Defs, tokens: Map<Seq<char>, Seq<char>>, i: usize) -> bool {
    exists|k: nat, j: usize|
        #![trigger reach(next_spec(defs), i, k), defs[j as int]]
        reach(next_spec(defs), i, k) == Some(j) && j < defs.len() && defs[j as int].1.0 is Literal && tokens.contains_key(
            defs[i as int].0,
        ) && tokens[defs[i as int].0] == defs[j as int].1.0->Literal_0
}

/// In a graph without cycles whose references all name a token, every chain ends in a literal.
pub proof fn lemma_chains_end(defs: Defs)
    requires
        strictly_sorted(defs),
        forall|u: usize| u < defs.len() ==> !#[trigger] on_cycle(next_spec(defs), u),
        forall|u: int|
            0 <= u < defs.len() && (#[trigger] defs[u].1.0) is Reference ==> key_index(defs, defs[u].1.0->Reference_0) is Some,
    ensures
        forall|i: usize| i < defs.len() ==> #[trigger] chain_ends(defs, pairs_map(resolved_pairs(defs)), i),
{
    assert forall|i: usize| i < defs.len() implies #[trigger] chain_ends(defs, pairs_map(resolved_pairs(defs)), i) by {
        lemma_token_chain_ends(defs, i);
    }
}

proof fn lemma_token_chain_ends(defs: Defs, i: usize)
    requires
        strictly_sorted(defs),
        i < defs.len(),
        forall|u: usize| u < defs.len() ==> !#[trigger] on_cycle(next_spec(defs), u),
        forall|u: int|
            0 <= u < defs.len() && (#[trigger] defs[u].1.0) is Reference ==> key_index(defs, defs[u].1.0->Reference_0) is Some,
    ensures
        chain_ends(defs, pairs_map(resolved_pairs(defs)), i),
{
    lemma_resolves_every_token(defs, i);
}

} // verus!
