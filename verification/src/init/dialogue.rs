//! The rules behind the questions `init` asks: which token a colour is offered as, what an
//! answer naming a token may bind, which of several names an occurrence takes, and which
//! files and names are already a target's.
//!
//! Asking and reading the answers back is the caller's.

use vstd::prelude::*;

use crate::config::{target_views, Config, TargetName, TargetView};
use crate::path_map::{lemma_less_irreflexive, lemma_less_transitive, less_chars, lookup, text_less, PathMap};
use crate::scheme::convert::{lemma_map_of_insert, map_of};
use crate::text::{chars_of, push_str, string_of};
use crate::token::{entry_views, pairs_map, split_dots, TokenPath, Tokens};

verus! {

/// Whether the first segment of `path` is `role`.
pub open spec fn is_role(path: Seq<char>) -> bool {
    &&& path.len() >= 4
    &&& path.take(4) == "role"@
    &&& (path.len() == 4 || path[4] == '.')
}

/// Whether `a` is offered before `b`: a `role` token before any other, then path order.
pub open spec fn offered_before(a: Seq<char>, b: Seq<char>) -> bool {
    (is_role(a) && !is_role(b)) || (is_role(a) == is_role(b) && text_less(a, b))
}

/// `offered_before` is transitive.
proof fn lemma_offered_transitive(a: Seq<char>, b: Seq<char>, c: Seq<char>)
    requires
        offered_before(a, b),
        offered_before(b, c),
    ensures
        offered_before(a, c),
{
    if is_role(a) == is_role(b) && is_role(b) == is_role(c) {
        lemma_less_transitive(a, b, c);
    }
}

/// Nothing is offered before itself.
proof fn lemma_offered_irreflexive(a: Seq<char>)
    ensures
        !offered_before(a, a),
{
    lemma_less_irreflexive(a);
}

/// Every key of the map a sequence of pairs builds is the path of one of the pairs.
proof fn lemma_pairs_map_keys(pairs: Seq<(Seq<char>, Seq<char>)>, key: Seq<char>)
    requires
        pairs_map(pairs).contains_key(key),
    ensures
        exists|j: int| 0 <= j < pairs.len() && #[trigger] pairs[j].0 == key,
    decreases pairs.len(),
{
    if pairs.last().0 != key {
        lemma_pairs_map_keys(pairs.drop_last(), key);
        let j = choose|j: int| 0 <= j < pairs.drop_last().len() && #[trigger] pairs.drop_last()[j].0 == key;
        assert(pairs[j].0 == key);
    } else {
        assert(pairs[pairs.len() - 1].0 == key);
    }
}

/// Whether the first segment of `path` is `role`.
fn role(path: &TokenPath) -> (yes: bool)
    ensures
        yes == is_role(path@),
{
    proof {
        reveal_strlit("role");
    }
    let chars = path.chars();
    let yes = chars.len() >= 4 && chars[0] == 'r' && chars[1] == 'o' && chars[2] == 'l' && chars[3] == 'e' && (
    chars.len() == 4 || chars[4] == '.');
    proof {
        if chars@.len() >= 4 {
            let head = chars@.take(4);
            if head == "role"@ {
                assert(head[0] == 'r' && head[1] == 'o' && head[2] == 'l' && head[3] == 'e');
            }
            if chars@[0] == 'r' && chars@[1] == 'o' && chars@[2] == 'l' && chars@[3] == 'e' {
                assert(head =~= "role"@);
            }
        }
    }
    yes
}

/// The token `value` is offered as: one `known` already resolves to it, a `role` token
/// before any other and then the first in path order; `None` when no token resolves to it.
pub fn offered(known: &Tokens, value: &str) -> (offer: Option<TokenPath>)
    ensures
        offer is None <==> !exists|p: Seq<char>| #[trigger] known@.contains_key(p) && known@[p] == value@,
        offer matches Some(p) ==> {
            &&& known@.contains_key(p@)
            &&& known@[p@] == value@
            &&& forall|q: Seq<char>|
                #[trigger] known@.contains_key(q) && known@[q] == value@ ==> !offered_before(q, p@)
        },
{
    let pairs = known.pairs();
    let ghost views = entry_views(pairs@);
    let mut best: Option<usize> = None;
    let mut i: usize = 0;
    while i < pairs.len()
        invariant
            i <= pairs@.len(),
            views == entry_views(pairs@),
            pairs_map(views) == known@,
            match best {
                None => forall|j: int| 0 <= j < i ==> !(#[trigger] known@[views[j].0] == value@),
                Some(b) => {
                    &&& b < i
                    &&& known@.contains_key(views[b as int].0)
                    &&& known@[views[b as int].0] == value@
                    &&& forall|j: int|
                        0 <= j < i && known@[#[trigger] views[j].0] == value@ ==> !offered_before(
                            views[j].0,
                            views[b as int].0,
                        )
                },
            },
        decreases pairs@.len() - i,
    {
        let (path, _) = &pairs[i];
        proof {
            assert(views[i as int].0 == path@);
        }
        let current = known.get(path);
        let effective = match current {
            Some(v) => {
                let a = chars_of(v);
                let b = chars_of(value);
                crate::text::same_chars(a.as_slice(), b.as_slice())
            },
            None => false,
        };
        proof {
            lemma_pairs_map_keys_in(views, i as int);
        }
        if effective {
            match best {
                None => {
                    proof {
                        lemma_offered_irreflexive(path@);
                    }
                    best = Some(i);
                },
                Some(b) => {
                    let (held, _) = &pairs[b];
                    proof {
                        assert(views[b as int].0 == held@);
                    }
                    let path_role = role(path);
                    let held_role = role(held);
                    let a = path.chars();
                    let c = held.chars();
                    let earlier = (path_role && !held_role) || (path_role == held_role && less_chars(
                        a.as_slice(),
                        c.as_slice(),
                    ));
                    if earlier {
                        proof {
                            assert forall|j: int|
                                0 <= j < i + 1 && known@[#[trigger] views[j].0] == value@ implies !offered_before(
                                views[j].0,
                                path@,
                            ) by {
                                if j < i {
                                    if offered_before(views[j].0, path@) {
                                        lemma_offered_transitive(views[j].0, path@, held@);
                                    }
                                } else {
                                    lemma_offered_irreflexive(path@);
                                }
                            }
                        }
                        best = Some(i);
                    }
                },
            }
        }
        proof {
            if !effective {
                assert(!(known@[views[i as int].0] == value@));
            }
        }
        i = i + 1;
    }
    match best {
        Some(b) => {
            let (path, _) = &pairs[b];
            proof {
                assert(views[b as int].0 == path@);
                assert forall|q: Seq<char>| #[trigger] known@.contains_key(q) && known@[q] == value@ implies !offered_before(
                    q,
                    path@,
                ) by {
                    lemma_pairs_map_keys(views, q);
                    let j = choose|j: int| 0 <= j < views.len() && #[trigger] views[j].0 == q;
                    assert(known@[views[j].0] == value@);
                }
            }
            Some(path.clone())
        },
        None => {
            proof {
                assert forall|p: Seq<char>| #[trigger] known@.contains_key(p) implies known@[p] != value@ by {
                    lemma_pairs_map_keys(views, p);
                    let j = choose|j: int| 0 <= j < views.len() && #[trigger] views[j].0 == p;
                    assert(!(known@[views[j].0] == value@));
                }
            }
            None
        },
    }
}

/// The path of every pair is a key of the map the pairs build.
proof fn lemma_pairs_map_keys_in(pairs: Seq<(Seq<char>, Seq<char>)>, i: int)
    requires
        0 <= i < pairs.len(),
    ensures
        pairs_map(pairs).contains_key(pairs[i].0),
    decreases pairs.len(),
{
    if i < pairs.len() - 1 {
        lemma_pairs_map_keys_in(pairs.drop_last(), i);
    }
}

/// A token an answer names is already bound to another colour.
#[derive(Debug)]
pub struct Clash {
    /// The token.
    pub token: TokenPath,
    /// The colour it is bound to.
    pub bound: String,
    /// The colour the answer would bind it to.
    pub wanted: String,
}

impl Clash {
    /// What the clash is reported with.
    pub fn message(&self) -> (text: String)
        ensures
            text@ == "`"@ + self.token@ + "` is already "@ + self.bound@ + ", so it cannot also be "@ + self.wanted@,
    {
        proof {
            reveal_strlit("`");
            reveal_strlit("` is already ");
            reveal_strlit(", so it cannot also be ");
        }
        let mut chars: Vec<char> = Vec::new();
        push_str(&mut chars, "`");
        push_str(&mut chars, self.token.as_str());
        push_str(&mut chars, "` is already ");
        push_str(&mut chars, self.bound.as_str());
        push_str(&mut chars, ", so it cannot also be ");
        push_str(&mut chars, self.wanted.as_str());
        string_of(chars.as_slice())
    }
}

/// Binds `token` to the colour `value` for the theme being written.
///
/// A token the theme already defines, or that an earlier answer bound, keeps its colour: the
/// same colour again is fine, another one is a clash. A token the theme already defines is
/// not written again.
pub fn claim(known: &Tokens, tokens: &mut PathMap<String>, token: &TokenPath, value: &str) -> (result: Result<(), Clash>)
    requires
        old(tokens).well_formed(),
    ensures
        final(tokens).well_formed(),
        result is Err <==> (known@.contains_key(token@) && known@[token@] != value@) || (lookup(
            old(tokens).view_entries(),
            token@,
        ) matches Some(v) && v@ != value@),
        result matches Err(c) ==> {
            &&& c.token@ == token@
            &&& c.wanted@ == value@
            &&& c.bound@ == if known@.contains_key(token@) && known@[token@] != value@ {
                known@[token@]
            } else {
                lookup(old(tokens).view_entries(), token@)->0@
            }
            &&& final(tokens).view_entries() == old(tokens).view_entries()
        },
        result is Ok && known@.contains_key(token@) ==> final(tokens).view_entries() == old(tokens).view_entries(),
        result is Ok && !known@.contains_key(token@) ==> map_of(final(tokens).view_entries()) == map_of(
            old(tokens).view_entries(),
        ).insert(token@, value@),
{
    let wanted = chars_of(value);
    let theirs = known.get(token);
    if let Some(bound) = theirs {
        let held = chars_of(bound);
        if !crate::text::same_chars(held.as_slice(), wanted.as_slice()) {
            return Err(Clash { token: token.clone(), bound: bound.to_owned(), wanted: value.to_owned() });
        }
    }
    if let Some(bound) = tokens.get(token) {
        let held = chars_of(bound.as_str());
        if !crate::text::same_chars(held.as_slice(), wanted.as_slice()) {
            return Err(Clash { token: token.clone(), bound: bound.as_str().to_owned(), wanted: value.to_owned() });
        }
    }
    if theirs.is_some() {
        return Ok(());
    }
    let ghost before = tokens.view_entries();
    let owned = value.to_owned();
    tokens.insert(token.clone(), owned);
    proof {
        lemma_map_of_insert(before, token@, owned);
    }
    Ok(())
}

/// The last segment of a path.
pub open spec fn leaf_spec(path: Seq<char>) -> Seq<char> {
    split_dots(path).last()
}

/// Whether `answer` names `path`, by the whole path or by its last segment.
pub open spec fn names_path(path: Seq<char>, answer: Seq<char>) -> bool {
    path == answer || leaf_spec(path) == answer
}

/// The first of `names[i..]` that `answer` names.
pub open spec fn first_named(names: Seq<Seq<char>>, answer: Seq<char>, i: int) -> Option<int>
    decreases names.len() - i,
{
    if i < 0 || i >= names.len() {
        None
    } else if names_path(names[i], answer) {
        Some(i)
    } else {
        first_named(names, answer, i + 1)
    }
}

/// Which of `names` the answer `answer` picks, by the whole path or by its last segment; the
/// first that fits, or `None` when none does.
pub fn pick(names: &Vec<TokenPath>, answer: &str) -> (picked: Option<usize>)
    ensures
        match picked {
            Some(i) => first_named(names@.map_values(|p: TokenPath| p@), answer@, 0) == Some(i as int),
            None => first_named(names@.map_values(|p: TokenPath| p@), answer@, 0) is None,
        },
{
    let ghost views = names@.map_values(|p: TokenPath| p@);
    let wanted = chars_of(answer);
    let mut i: usize = 0;
    while i < names.len()
        invariant
            i <= names@.len(),
            views == names@.map_values(|p: TokenPath| p@),
            wanted@ == answer@,
            first_named(views, answer@, 0) == first_named(views, answer@, i as int),
        decreases names@.len() - i,
    {
        let path = &names[i];
        proof {
            assert(views[i as int] == path@);
        }
        let whole = path.chars();
        let segments = path.segments();
        proof {
            crate::token::lemma_split_dots_len(path@);
            assert(segments@.map_values(|t: String| t@).last() == segments@.last()@);
        }
        let last = chars_of(segments[segments.len() - 1].as_str());
        if crate::text::same_chars(whole.as_slice(), wanted.as_slice()) || crate::text::same_chars(
            last.as_slice(),
            wanted.as_slice(),
        ) {
            return Some(i);
        }
        i = i + 1;
    }
    None
}

/// The first target from `i` on whose output is `output`.
pub open spec fn owner_from(targets: Seq<TargetView>, output: Seq<char>, i: int) -> Option<int>
    decreases targets.len() - i,
{
    if i < 0 || i >= targets.len() {
        None
    } else if targets[i].output == output {
        Some(i)
    } else {
        owner_from(targets, output, i + 1)
    }
}

/// The target whose output the file at `output` already is, by its place in the config: a
/// file that is already a target's output is not turned into another one.
pub fn output_owner(config: &Config, output: &str) -> (owner: Option<usize>)
    ensures
        match owner {
            Some(i) => owner_from(config@.targets, output@, 0) == Some(i as int),
            None => owner_from(config@.targets, output@, 0) is None,
        },
{
    let targets = config.targets();
    let ghost views = config@.targets;
    let wanted = chars_of(output);
    let mut i: usize = 0;
    while i < targets.len()
        invariant
            i <= targets@.len(),
            target_views(targets@) == views,
            wanted@ == output@,
            views == config@.targets,
            owner_from(views, output@, 0) == owner_from(views, output@, i as int),
        decreases targets@.len() - i,
    {
        proof {
            assert(targets@[i as int]@ == views[i as int]);
        }
        let here = chars_of(targets[i].output());
        if crate::text::same_chars(here.as_slice(), wanted.as_slice()) {
            proof {
                assert(views[i as int].output == output@);
            }
            return Some(i);
        }
        i = i + 1;
    }
    None
}

/// Whether some target of the config is already called `name`.
pub fn name_taken(config: &Config, name: &TargetName) -> (taken: bool)
    ensures
        taken == exists|i: int| 0 <= i < config@.targets.len() && #[trigger] config@.targets[i].name == name@,
{
    let targets = config.targets();
    let ghost views = config@.targets;
    let mut i: usize = 0;
    while i < targets.len()
        invariant
            i <= targets@.len(),
            target_views(targets@) == views,
            views == config@.targets,
            forall|j: int| 0 <= j < i ==> #[trigger] views[j].name != name@,
        decreases targets@.len() - i,
    {
        proof {
            assert(targets@[i as int]@ == views[i as int]);
        }
        if targets[i].name().same(name) {
            return true;
        }
        i = i + 1;
    }
    false
}

} // verus!
