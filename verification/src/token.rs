//! Token paths and the flat table a theme resolves to.

use vstd::prelude::*;
use vstd::string::*;

use crate::text::{chars_of, is_lower_or_digit, string_of};

verus! {

/// Whether `c` may stand inside a segment.
pub open spec fn segment_char(c: char) -> bool {
    is_lower_or_digit(c) || c == '-'
}

/// One segment of a token path: `[a-z0-9]([a-z0-9-]*[a-z0-9])?`.
pub open spec fn is_segment_spec(s: Seq<char>) -> bool {
    &&& s.len() > 0
    &&& is_lower_or_digit(s[0])
    &&& is_lower_or_digit(s.last())
    &&& forall|i: int| 0 <= i < s.len() ==> #[trigger] segment_char(s[i])
}

/// A token path: one or more segments joined by `.`.
///
/// Stated without splitting: the ends are letters or digits, and every `.` sits between a
/// letter or digit on each side, so no segment is empty or starts or ends with `-`.
pub open spec fn is_path_spec(s: Seq<char>) -> bool {
    &&& s.len() > 0
    &&& is_lower_or_digit(s[0])
    &&& is_lower_or_digit(s.last())
    &&& forall|i: int|
        0 <= i < s.len() ==> #[trigger] segment_char(s[i]) || (s[i] == '.' && is_lower_or_digit(
            s[i - 1],
        ) && is_lower_or_digit(s[i + 1]))
}

/// `parent.child`.
pub open spec fn joined(parent: Seq<char>, child: Seq<char>) -> Seq<char> {
    parent + seq!['.'] + child
}

/// `parts` joined by `.`.
pub open spec fn join_dots(parts: Seq<Seq<char>>) -> Seq<char>
    decreases parts.len(),
{
    if parts.len() == 0 {
        Seq::empty()
    } else if parts.len() == 1 {
        parts[0]
    } else {
        joined(join_dots(parts.drop_last()), parts.last())
    }
}

/// Whether `chars` is one segment.
pub fn is_segment_chars(chars: &[char]) -> (ok: bool)
    ensures
        ok == is_segment_spec(chars@),
{
    let n = chars.len();
    if n == 0 {
        return false;
    }
    let first = chars[0];
    let last = chars[n - 1];
    let edge_first = ('a' <= first && first <= 'z') || ('0' <= first && first <= '9');
    let edge_last = ('a' <= last && last <= 'z') || ('0' <= last && last <= '9');
    if !edge_first || !edge_last {
        return false;
    }
    let mut i: usize = 0;
    while i < n
        invariant
            n == chars@.len(),
            i <= n,
            forall|j: int| 0 <= j < i ==> #[trigger] segment_char(chars@[j]),
        decreases n - i,
    {
        let c = chars[i];
        if !(('a' <= c && c <= 'z') || ('0' <= c && c <= '9') || c == '-') {
            assert(!segment_char(chars@[i as int]));
            return false;
        }
        i = i + 1;
    }
    true
}

/// Whether `text` is one segment of a token path: `[a-z0-9]([a-z0-9-]*[a-z0-9])?`.
pub fn is_segment(text: &str) -> (ok: bool)
    ensures
        ok == is_segment_spec(text@),
{
    let chars = chars_of(text);
    is_segment_chars(chars.as_slice())
}

/// Whether `chars` is a token path.
pub fn is_path_chars(chars: &[char]) -> (ok: bool)
    ensures
        ok == is_path_spec(chars@),
{
    let n = chars.len();
    if n == 0 {
        return false;
    }
    let first = chars[0];
    let last = chars[n - 1];
    let edge_first = ('a' <= first && first <= 'z') || ('0' <= first && first <= '9');
    let edge_last = ('a' <= last && last <= 'z') || ('0' <= last && last <= '9');
    if !edge_first || !edge_last {
        return false;
    }
    let mut i: usize = 0;
    while i < n
        invariant
            n == chars@.len(),
            0 < n,
            i <= n,
            is_lower_or_digit(chars@[0]),
            is_lower_or_digit(chars@[n - 1]),
            forall|j: int|
                0 <= j < i ==> #[trigger] segment_char(chars@[j]) || (chars@[j] == '.'
                    && is_lower_or_digit(chars@[j - 1]) && is_lower_or_digit(chars@[j + 1])),
        decreases n - i,
    {
        let c = chars[i];
        let plain = ('a' <= c && c <= 'z') || ('0' <= c && c <= '9') || c == '-';
        if !plain {
            if c != '.' || i == 0 || i + 1 >= n {
                assert(!segment_char(chars@[i as int]));
                return false;
            }
            let before = chars[i - 1];
            let after = chars[i + 1];
            let ok_before = ('a' <= before && before <= 'z') || ('0' <= before && before <= '9');
            let ok_after = ('a' <= after && after <= 'z') || ('0' <= after && after <= '9');
            if !ok_before || !ok_after {
                assert(!segment_char(chars@[i as int]));
                return false;
            }
        }
        i = i + 1;
    }
    true
}

/// A token path: one or more segments joined by `.`.
#[derive(Debug)]
pub struct TokenPath {
    text: String,
}

impl View for TokenPath {
    type V = Seq<char>;

    closed spec fn view(&self) -> Seq<char> {
        self.text@
    }
}

impl PartialEq for TokenPath {
    fn eq(&self, other: &Self) -> (equal: bool) {
        self.text == other.text
    }
}

impl Eq for TokenPath {
}

impl vstd::std_specs::cmp::PartialEqSpecImpl for TokenPath {
    open spec fn obeys_eq_spec() -> bool {
        true
    }

    open spec fn eq_spec(&self, other: &TokenPath) -> bool {
        self@ == other@
    }
}

impl Clone for TokenPath {
    fn clone(&self) -> (copy: Self)
        ensures
            copy@ == self@,
    {
        proof {
            use_type_invariant(self);
        }
        TokenPath { text: self.text.clone() }
    }
}

impl TokenPath {
    #[verifier::type_invariant]
    pub closed spec fn well_formed(self) -> bool {
        is_path_spec(self.text@)
    }

    /// A token path made of exactly the characters `chars`, which the caller has checked.
    pub fn from_chars(chars: &[char]) -> (path: TokenPath)
        requires
            is_path_spec(chars@),
        ensures
            path@ == chars@,
    {
        TokenPath { text: string_of(chars) }
    }

    /// Parses `text` as a token path, returning `None` when it is not one.
    ///
    /// Segments are lowercase ASCII, digits and internal hyphens, joined by `.`.
    pub fn parse(text: &str) -> (path: Option<TokenPath>)
        ensures
            path is Some <==> is_path_spec(text@),
            path matches Some(p) ==> p@ == text@,
    {
        let chars = chars_of(text);
        Self::parse_chars(chars.as_slice())
    }

    /// Parses `chars` as a token path, returning `None` when it is not one.
    pub fn parse_chars(chars: &[char]) -> (path: Option<TokenPath>)
        ensures
            path is Some <==> is_path_spec(chars@),
            path matches Some(p) ==> p@ == chars@,
    {
        if is_path_chars(chars) {
            Some(TokenPath { text: string_of(chars) })
        } else {
            None
        }
    }

    /// What the type invariant says of a token path.
    pub proof fn lemma_well_formed(path: TokenPath)
        requires
            path.well_formed(),
        ensures
            is_path_spec(path@),
    {
    }

    /// The first segment, which names the namespace a token sits in.
    pub fn root(&self) -> (root: &str)
        ensures
            is_segment_spec(root@),
            root@.len() <= self@.len(),
            root@ == self@.take(root@.len() as int),
            root@.len() == self@.len() || self@[root@.len() as int] == '.',
    {
        proof {
            use_type_invariant(self);
        }
        let chars = self.chars();
        let mut end: usize = 0;
        while end < chars.len() && chars[end] != '.'
            invariant
                end <= chars@.len(),
                chars@ == self@,
                is_path_spec(chars@),
                forall|j: int| 0 <= j < end ==> chars@[j] != '.',
            decreases chars@.len() - end,
        {
            end = end + 1;
        }
        proof {
            assert(end > 0);
            let r = chars@.take(end as int);
            assert forall|i: int| 0 <= i < r.len() implies #[trigger] segment_char(r[i]) by {
                assert(r[i] == chars@[i]);
                assert(segment_char(chars@[i]) || chars@[i] == '.');
            }
            assert(is_lower_or_digit(r.last())) by {
                if end < chars@.len() {
                    assert(chars@[end as int] == '.');
                    assert(!segment_char(chars@[end as int]));
                    assert(r.last() == chars@[end - 1]);
                } else {
                    assert(r.last() == chars@.last());
                }
            }
        }
        self.text.as_str().substring_char(0, end)
    }

    /// The path as written.
    pub fn as_str(&self) -> (text: &str)
        ensures
            text@ == self@,
    {
        self.text.as_str()
    }

    /// The path's characters.
    pub fn chars(&self) -> (chars: Vec<char>)
        ensures
            chars@ == self@,
            is_path_spec(chars@),
    {
        proof {
            use_type_invariant(self);
        }
        chars_of(self.text.as_str())
    }

    /// Whether `self` and `other` are the same path.
    pub fn same(&self, other: &TokenPath) -> (equal: bool)
        ensures
            equal == (self@ == other@),
    {
        self.text == other.text
    }

    /// `self.segment`, or `None` when `segment` is not a valid segment.
    pub fn child(&self, segment: &str) -> (path: Option<TokenPath>)
        ensures
            path is Some <==> is_segment_spec(segment@),
            path matches Some(p) ==> p@ == joined(self@, segment@),
    {
        proof {
            use_type_invariant(self);
        }
        let tail = chars_of(segment);
        if !is_segment_chars(tail.as_slice()) {
            return None;
        }
        let mut all = self.chars();
        all.push('.');
        let mut i: usize = 0;
        while i < tail.len()
            invariant
                i <= tail@.len(),
                all@ == self@ + seq!['.'] + tail@.take(i as int),
            decreases tail@.len() - i,
        {
            all.push(tail[i]);
            proof {
                assert(tail@.take(i + 1) == tail@.take(i as int).push(tail@[i as int]));
            }
            i = i + 1;
        }
        proof {
            assert(tail@.take(tail@.len() as int) == tail@);
            lemma_join_is_path(self@, tail@);
        }
        Some(TokenPath { text: string_of(all.as_slice()) })
    }
}

/// `s` split at every `.`, as `str::split` splits it.
pub open spec fn split_dots(s: Seq<char>) -> Seq<Seq<char>>
    decreases s.len(),
{
    if s.len() == 0 {
        seq![Seq::empty()]
    } else {
        let before = split_dots(s.drop_last());
        if s.last() == '.' {
            before.push(Seq::empty())
        } else {
            before.update(before.len() - 1, before.last().push(s.last()))
        }
    }
}

/// Splitting always gives at least one part.
pub proof fn lemma_split_dots_len(s: Seq<char>)
    ensures
        split_dots(s).len() > 0,
    decreases s.len(),
{
    if s.len() > 0 {
        lemma_split_dots_len(s.drop_last());
    }
}

impl TokenPath {
    /// The segments the path is made of.
    pub fn segments(&self) -> (segments: Vec<String>)
        ensures
            segments@.map_values(|t: String| t@) == split_dots(self@),
    {
        let chars = self.chars();
        let mut done: Vec<String> = Vec::new();
        let mut current: Vec<char> = Vec::new();
        let mut i: usize = 0;
        proof {
            assert(chars@.take(0) =~= Seq::<char>::empty());
            assert(done@.map_values(|t: String| t@).push(current@) =~= seq![Seq::<char>::empty()]);
        }
        while i < chars.len()
            invariant
                i <= chars@.len(),
                split_dots(chars@.take(i as int)) == done@.map_values(|t: String| t@).push(current@),
            decreases chars@.len() - i,
        {
            let c = chars[i];
            proof {
                assert(chars@.take(i + 1).drop_last() =~= chars@.take(i as int));
                assert(chars@.take(i + 1).last() == c);
            }
            let ghost before = done@.map_values(|t: String| t@);
            if c == '.' {
                done.push(string_of(current.as_slice()));
                current = Vec::new();
                proof {
                    assert(done@.map_values(|t: String| t@) =~= before.push(done@.last()@));
                }
            } else {
                let ghost was = current@;
                current.push(c);
                proof {
                    assert(before.push(was).update(before.len() as int, was.push(c)) =~= before.push(current@));
                }
            }
            i = i + 1;
        }
        let ghost before = done@.map_values(|t: String| t@);
        done.push(string_of(current.as_slice()));
        proof {
            assert(done@.map_values(|t: String| t@) =~= before.push(done@.last()@));
            assert(chars@.take(chars@.len() as int) =~= chars@);
        }
        done
    }
}

/// Every token the theme defines, mapped to its resolved value.
///
/// Held as the pairs it was built from; a later pair for the same path replaces an earlier
/// one, which is what collecting the pairs into a map does.
#[derive(Debug)]
pub struct Tokens {
    entries: Vec<(TokenPath, String)>,
}

/// The map a sequence of pairs builds, later pairs winning.
pub open spec fn pairs_map(pairs: Seq<(Seq<char>, Seq<char>)>) -> Map<Seq<char>, Seq<char>>
    decreases pairs.len(),
{
    if pairs.len() == 0 {
        Map::empty()
    } else {
        pairs_map(pairs.drop_last()).insert(pairs.last().0, pairs.last().1)
    }
}

/// The pairs as plain values.
pub open spec fn entry_views(entries: Seq<(TokenPath, String)>) -> Seq<(Seq<char>, Seq<char>)> {
    entries.map_values(|e: (TokenPath, String)| (e.0@, e.1@))
}

/// A key none of the pairs from `from` on carries is looked up in the pairs before `from`.
pub proof fn lemma_pairs_map_prefix(pairs: Seq<(Seq<char>, Seq<char>)>, from: int, key: Seq<char>)
    requires
        0 <= from <= pairs.len(),
        forall|j: int| from <= j < pairs.len() ==> pairs[j].0 != key,
    ensures
        pairs_map(pairs).contains_key(key) == pairs_map(pairs.take(from)).contains_key(key),
        pairs_map(pairs)[key] == pairs_map(pairs.take(from))[key],
    decreases pairs.len() - from,
{
    if from < pairs.len() {
        let shorter = pairs.drop_last();
        assert(shorter.take(from) == pairs.take(from));
        lemma_pairs_map_prefix(shorter, from, key);
    } else {
        assert(pairs.take(from) == pairs);
    }
}

impl View for Tokens {
    type V = Map<Seq<char>, Seq<char>>;

    closed spec fn view(&self) -> Map<Seq<char>, Seq<char>> {
        pairs_map(entry_views(self.entries@))
    }
}

impl Tokens {
    /// No tokens.
    pub fn new() -> (tokens: Tokens)
        ensures
            tokens@ == Map::<Seq<char>, Seq<char>>::empty(),
    {
        let tokens = Tokens { entries: Vec::new() };
        proof {
            assert(entry_views(tokens.entries@) =~= Seq::empty());
        }
        tokens
    }

    /// The pairs, as the map collecting them in order builds: a later pair for the same
    /// path replaces an earlier one.
    pub fn from_pairs(pairs: Vec<(TokenPath, String)>) -> (tokens: Tokens)
        ensures
            tokens@ == pairs_map(entry_views(pairs@)),
    {
        Tokens { entries: pairs }
    }

    /// Binds `path` to `value`, replacing what it was bound to.
    pub fn insert(&mut self, path: TokenPath, value: String)
        ensures
            final(self)@ == old(self)@.insert(path@, value@),
    {
        let ghost before = entry_views(self.entries@);
        self.entries.push((path, value));
        proof {
            assert(entry_views(self.entries@).drop_last() =~= before);
        }
    }

    /// The value bound to `path`, or `None` when the theme does not define it.
    pub fn get(&self, path: &TokenPath) -> (value: Option<&str>)
        ensures
            value is Some <==> self@.contains_key(path@),
            value matches Some(v) ==> v@ == self@[path@],
    {
        let ghost views = entry_views(self.entries@);
        let mut i: usize = self.entries.len();
        while i > 0
            invariant
                i <= self.entries@.len(),
                views == entry_views(self.entries@),
                forall|j: int| i <= j < views.len() ==> views[j].0 != path@,
            decreases i,
        {
            let entry = &self.entries[i - 1];
            if entry.0.same(path) {
                proof {
                    lemma_pairs_map_prefix(views, i as int, path@);
                    let before = views.take(i as int);
                    assert(before.drop_last() =~= views.take(i - 1));
                    assert(before.last() == views[i - 1]);
                }
                return Some(entry.1.as_str());
            }
            i = i - 1;
        }
        proof {
            lemma_pairs_map_prefix(views, 0, path@);
            assert(views.take(0) =~= Seq::<(Seq<char>, Seq<char>)>::empty());
        }
        None
    }

    /// Every pair, in the order they were added.
    pub fn pairs(&self) -> (pairs: &Vec<(TokenPath, String)>)
        ensures
            pairs_map(entry_views(pairs@)) == self@,
    {
        &self.entries
    }
}

/// A path, a `.` and a segment make a path.
pub proof fn lemma_join_is_path(parent: Seq<char>, segment: Seq<char>)
    requires
        is_path_spec(parent),
        is_segment_spec(segment),
    ensures
        is_path_spec(joined(parent, segment)),
{
    let s = joined(parent, segment);
    let n = parent.len() as int;
    assert forall|i: int| 0 <= i < s.len() implies #[trigger] segment_char(s[i]) || (s[i] == '.'
        && is_lower_or_digit(s[i - 1]) && is_lower_or_digit(s[i + 1])) by {
        if i < n {
            assert(s[i] == parent[i]);
            if !segment_char(parent[i]) {
                assert(s[i - 1] == parent[i - 1]);
                assert(s[i + 1] == parent[i + 1]) by {
                    assert(i + 1 < n) by {
                        assert(is_lower_or_digit(parent[n - 1]));
                    }
                }
            }
        } else if i == n {
            assert(s[i - 1] == parent[n - 1]);
            assert(s[i + 1] == segment[0]);
        } else {
            assert(s[i] == segment[i - n - 1]);
        }
    }
    assert(s.last() == segment.last());
}

/// A segment is a path of one segment.
pub proof fn lemma_segment_is_path(segment: Seq<char>)
    requires
        is_segment_spec(segment),
    ensures
        is_path_spec(segment),
{
    assert forall|i: int| 0 <= i < segment.len() implies #[trigger] segment_char(segment[i]) || (
    segment[i] == '.' && is_lower_or_digit(segment[i - 1]) && is_lower_or_digit(segment[i + 1])) by {
        assert(segment_char(segment[i]));
    }
}

/// No piece of a split holds a `.`.
pub proof fn lemma_split_dots_parts(s: Seq<char>)
    ensures
        forall|k: int, i: int|
            0 <= k < split_dots(s).len() && 0 <= i < split_dots(s)[k].len() ==> #[trigger] split_dots(s)[k][i] != '.',
    decreases s.len(),
{
    if s.len() > 0 {
        lemma_split_dots_parts(s.drop_last());
        lemma_split_dots_len(s.drop_last());
        let before = split_dots(s.drop_last());
        if s.last() != '.' {
            let after = split_dots(s);
            assert forall|k: int, i: int| 0 <= k < after.len() && 0 <= i < after[k].len() implies #[trigger] after[k][i] != '.' by {
                if k == before.len() - 1 {
                    if i < before.last().len() {
                        assert(after[k][i] == before[k][i]);
                    }
                } else {
                    assert(after[k] == before[k]);
                }
            }
        } else {
            let after = split_dots(s);
            assert forall|k: int, i: int| 0 <= k < after.len() && 0 <= i < after[k].len() implies #[trigger] after[k][i] != '.' by {
                if k < before.len() {
                    assert(after[k] == before[k]);
                }
            }
        }
    }
}

/// Adding a character to the last piece adds it to the joined text.
proof fn lemma_join_dots_push(p: Seq<Seq<char>>, c: char)
    requires
        p.len() > 0,
    ensures
        join_dots(p.update(p.len() - 1, p.last().push(c))) == join_dots(p).push(c),
{
    let q = p.update(p.len() - 1, p.last().push(c));
    if p.len() > 1 {
        assert(q.drop_last() =~= p.drop_last());
        assert(joined(join_dots(p.drop_last()), p.last().push(c)) =~= joined(join_dots(p.drop_last()), p.last()).push(c));
    }
}

/// Joining the pieces of a split with dots gives the text back.
pub proof fn lemma_join_split(s: Seq<char>)
    ensures
        join_dots(split_dots(s)) == s,
    decreases s.len(),
{
    if s.len() == 0 {
        assert(join_dots(seq![Seq::<char>::empty()]) =~= s);
    } else {
        lemma_join_split(s.drop_last());
        lemma_split_dots_len(s.drop_last());
        let before = split_dots(s.drop_last());
        if s.last() == '.' {
            let after = before.push(Seq::<char>::empty());
            assert(after.drop_last() =~= before);
            assert(joined(join_dots(before), Seq::<char>::empty()) =~= s);
        } else {
            lemma_join_dots_push(before, s.last());
            assert(s.drop_last().push(s.last()) =~= s);
        }
    }
}

/// With a dot-free last piece, a path joined from two is a path followed by a segment.
proof fn lemma_path_of_joined(j: Seq<char>, l: Seq<char>)
    requires
        forall|i: int| 0 <= i < l.len() ==> #[trigger] l[i] != '.',
    ensures
        is_path_spec(joined(j, l)) <==> is_path_spec(j) && is_segment_spec(l),
{
    let s = joined(j, l);
    let n = j.len() as int;
    if is_path_spec(j) && is_segment_spec(l) {
        lemma_join_is_path(j, l);
    }
    if is_path_spec(s) {
        assert(s[n] == '.');
        assert(!segment_char(s[n]));
        assert(n >= 1);
        assert(s[n - 1] == j[n - 1]);
        assert(l.len() > 0);
        assert(s[n + 1] == l[0]);
        assert(s.last() == l.last());
        assert forall|i: int| 0 <= i < l.len() implies #[trigger] segment_char(l[i]) by {
            assert(s[n + 1 + i] == l[i]);
        }
        assert(j[0] == s[0]);
        assert forall|i: int| 0 <= i < j.len() implies #[trigger] segment_char(j[i]) || (j[i] == '.' && is_lower_or_digit(
            j[i - 1],
        ) && is_lower_or_digit(j[i + 1])) by {
            assert(s[i] == j[i]);
            if !segment_char(j[i]) {
                assert(i > 0);
                assert(s[i - 1] == j[i - 1]);
                assert(i + 1 < n);
                assert(s[i + 1] == j[i + 1]);
            }
        }
    }
}

/// Pieces without dots join into a path exactly when each is a segment.
proof fn lemma_path_of_parts(parts: Seq<Seq<char>>)
    requires
        parts.len() > 0,
        forall|k: int, i: int| 0 <= k < parts.len() && 0 <= i < parts[k].len() ==> #[trigger] parts[k][i] != '.',
    ensures
        is_path_spec(join_dots(parts)) <==> forall|k: int| 0 <= k < parts.len() ==> is_segment_spec(#[trigger] parts[k]),
    decreases parts.len(),
{
    if parts.len() == 1 {
        let p = parts[0];
        assert forall|i: int| 0 <= i < p.len() implies p[i] != '.' by {
            assert(parts[0][i] != '.');
        }
        if is_segment_spec(p) {
            lemma_segment_is_path(p);
        }
        if is_path_spec(p) {
            assert forall|i: int| 0 <= i < p.len() implies #[trigger] segment_char(p[i]) by {
                assert(p[i] != '.');
            }
        }
    } else {
        let rest = parts.drop_last();
        assert forall|k: int, i: int| 0 <= k < rest.len() && 0 <= i < rest[k].len() implies #[trigger] rest[k][i] != '.' by {
            assert(rest[k] == parts[k]);
        }
        lemma_path_of_parts(rest);
        let l = parts.last();
        assert forall|i: int| 0 <= i < l.len() implies #[trigger] l[i] != '.' by {
            assert(parts[parts.len() - 1][i] != '.');
        }
        lemma_path_of_joined(join_dots(rest), l);
        if forall|k: int| 0 <= k < parts.len() ==> is_segment_spec(#[trigger] parts[k]) {
            assert forall|k: int| 0 <= k < rest.len() implies is_segment_spec(#[trigger] rest[k]) by {
                assert(rest[k] == parts[k]);
            }
        }
        if is_path_spec(join_dots(parts)) {
            assert forall|k: int| 0 <= k < parts.len() implies is_segment_spec(#[trigger] parts[k]) by {
                if k < rest.len() {
                    assert(rest[k] == parts[k]);
                }
            }
        }
    }
}

/// A text is a token path exactly when every piece between its dots is a segment: none is
/// empty, each is lowercase letters, digits and hyphens, and none starts or ends with `-`.
pub proof fn lemma_path_is_its_segments(s: Seq<char>)
    ensures
        is_path_spec(s) <==> forall|k: int| 0 <= k < split_dots(s).len() ==> is_segment_spec(#[trigger] split_dots(s)[k]),
{
    lemma_split_dots_len(s);
    lemma_split_dots_parts(s);
    lemma_join_split(s);
    lemma_path_of_parts(split_dots(s));
}

/// The segments of a token path join back to it with dots; there is at least one, and each
/// is a segment.
pub proof fn lemma_segments_of_path(s: Seq<char>)
    requires
        is_path_spec(s),
    ensures
        join_dots(split_dots(s)) == s,
        split_dots(s).len() >= 1,
        forall|k: int| 0 <= k < split_dots(s).len() ==> is_segment_spec(#[trigger] split_dots(s)[k]),
{
    lemma_path_is_its_segments(s);
    lemma_join_split(s);
    lemma_split_dots_len(s);
}

} // verus!
