//! A map keyed by token path, kept in path order.
//!
//! Paths are ordered as their text is, character by character, the way a `String` orders.

use vstd::prelude::*;

use crate::text::same_chars;
use crate::token::TokenPath;

verus! {

/// Whether `a` sorts before `b`, character by character, a prefix first.
pub open spec fn text_less(a: Seq<char>, b: Seq<char>) -> bool
    decreases a.len(),
{
    if a.len() == 0 {
        b.len() > 0
    } else if b.len() == 0 {
        false
    } else if a[0] != b[0] {
        a[0] < b[0]
    } else {
        text_less(a.drop_first(), b.drop_first())
    }
}

/// `text_less` is irreflexive.
pub proof fn lemma_less_irreflexive(a: Seq<char>)
    ensures
        !text_less(a, a),
    decreases a.len(),
{
    if a.len() > 0 {
        lemma_less_irreflexive(a.drop_first());
    }
}

/// `text_less` is transitive.
pub proof fn lemma_less_transitive(a: Seq<char>, b: Seq<char>, c: Seq<char>)
    requires
        text_less(a, b),
        text_less(b, c),
    ensures
        text_less(a, c),
    decreases a.len(),
{
    if a.len() > 0 && b.len() > 0 && c.len() > 0 {
        if a[0] == b[0] && b[0] == c[0] {
            lemma_less_transitive(a.drop_first(), b.drop_first(), c.drop_first());
        }
    }
}

/// Of two different texts, one sorts before the other.
pub proof fn lemma_less_total(a: Seq<char>, b: Seq<char>)
    requires
        a != b,
    ensures
        text_less(a, b) || text_less(b, a),
    decreases a.len(),
{
    if a.len() > 0 && b.len() > 0 && a[0] == b[0] {
        if a.drop_first() == b.drop_first() {
            assert(a =~= seq![a[0]] + a.drop_first());
            assert(b =~= seq![b[0]] + b.drop_first());
        }
        lemma_less_total(a.drop_first(), b.drop_first());
    } else if a.len() == 0 && b.len() == 0 {
        assert(a =~= b);
    }
}

/// Whether `a` sorts before `b`.
pub fn less_chars(a: &[char], b: &[char]) -> (less: bool)
    ensures
        less == text_less(a@, b@),
{
    let mut i: usize = 0;
    proof {
        assert(a@.skip(0) =~= a@);
        assert(b@.skip(0) =~= b@);
    }
    while i < a.len() && i < b.len() && a[i] == b[i]
        invariant
            i <= a@.len(),
            i <= b@.len(),
            a@.take(i as int) == b@.take(i as int),
            text_less(a@, b@) == text_less(a@.skip(i as int), b@.skip(i as int)),
        decreases a@.len() - i,
    {
        proof {
            let sa = a@.skip(i as int);
            let sb = b@.skip(i as int);
            assert(sa.drop_first() =~= a@.skip(i + 1));
            assert(sb.drop_first() =~= b@.skip(i + 1));
            assert(a@.take(i + 1) =~= a@.take(i as int).push(a@[i as int]));
            assert(b@.take(i + 1) =~= b@.take(i as int).push(b@[i as int]));
        }
        i = i + 1;
    }
    if i == a.len() {
        i < b.len()
    } else if i == b.len() {
        false
    } else {
        a[i] < b[i]
    }
}

/// Whether the keys of `entries` are in strictly increasing order.
pub open spec fn strictly_sorted<V>(entries: Seq<(Seq<char>, V)>) -> bool {
    forall|i: int, j: int|
        0 <= i < j < entries.len() ==> text_less(#[trigger] entries[i].0, #[trigger] entries[j].0)
}

/// The entries with their keys as plain values.
pub open spec fn keyed<V>(entries: Seq<(TokenPath, V)>) -> Seq<(Seq<char>, V)> {
    entries.map_values(|e: (TokenPath, V)| (e.0@, e.1))
}

/// `entries` with `key` bound to `value`: replacing the entry for `key`, or placed before
/// the first key that sorts after it.
pub open spec fn sorted_insert<V>(entries: Seq<(Seq<char>, V)>, key: Seq<char>, value: V) -> Seq<
    (Seq<char>, V),
>
    decreases entries.len(),
{
    if entries.len() == 0 {
        seq![(key, value)]
    } else if entries[0].0 == key {
        seq![(key, value)] + entries.drop_first()
    } else if text_less(key, entries[0].0) {
        seq![(key, value)] + entries
    } else {
        seq![entries[0]] + sorted_insert(entries.drop_first(), key, value)
    }
}

/// The value the first entry for `key` holds.
pub open spec fn lookup<V>(entries: Seq<(Seq<char>, V)>, key: Seq<char>) -> Option<V>
    decreases entries.len(),
{
    if entries.len() == 0 {
        None
    } else if entries[0].0 == key {
        Some(entries[0].1)
    } else {
        lookup(entries.drop_first(), key)
    }
}

/// Where `key` would go in sorted `entries`, `sorted_insert` puts it there.
proof fn lemma_sorted_insert_at<V>(entries: Seq<(Seq<char>, V)>, key: Seq<char>, value: V, at: int)
    requires
        0 <= at <= entries.len(),
        forall|i: int| 0 <= i < at ==> text_less(entries[i].0, key),
        at < entries.len() ==> entries[at].0 == key || text_less(key, entries[at].0),
    ensures
        sorted_insert(entries, key, value) == if at < entries.len() && entries[at].0 == key {
            entries.update(at, (key, value))
        } else {
            entries.insert(at, (key, value))
        },
    decreases entries.len(),
{
    if entries.len() == 0 {
        assert(entries.insert(at, (key, value)) =~= seq![(key, value)]);
    } else if at == 0 {
        if entries[0].0 == key {
            assert(entries.update(0, (key, value)) =~= seq![(key, value)] + entries.drop_first());
        } else {
            assert(entries.insert(0, (key, value)) =~= seq![(key, value)] + entries);
        }
    } else {
        assert(text_less(entries[0].0, key));
        if entries[0].0 == key {
            lemma_less_irreflexive(key);
        }
        if text_less(key, entries[0].0) {
            lemma_less_transitive(key, entries[0].0, key);
            lemma_less_irreflexive(key);
        }
        let rest = entries.drop_first();
        lemma_sorted_insert_at(rest, key, value, at - 1);
        if at < entries.len() && entries[at].0 == key {
            assert(entries.update(at, (key, value)) =~= seq![entries[0]] + rest.update(
                at - 1,
                (key, value),
            ));
        } else {
            assert(entries.insert(at, (key, value)) =~= seq![entries[0]] + rest.insert(
                at - 1,
                (key, value),
            ));
        }
    }
}

/// Binding a key in sorted entries keeps them sorted, and adds no key but that one.
pub proof fn lemma_sorted_insert_sorted<V>(entries: Seq<(Seq<char>, V)>, key: Seq<char>, value: V)
    requires
        strictly_sorted(entries),
    ensures
        strictly_sorted(sorted_insert(entries, key, value)),
        forall|i: int|
            0 <= i < sorted_insert(entries, key, value).len() ==> (#[trigger] sorted_insert(entries, key, value)[i]).0
                == key || exists|j: int| 0 <= j < entries.len() && entries[j].0 == sorted_insert(entries, key, value)[i].0,
    decreases entries.len(),
{
    let r = sorted_insert(entries, key, value);
    if entries.len() == 0 {
    } else if entries[0].0 == key {
        assert forall|i: int, j: int| 0 <= i < j < r.len() implies text_less(#[trigger] r[i].0, #[trigger] r[j].0) by {
            assert(r[i].0 == entries[i].0 && r[j].0 == entries[j].0);
        }
        assert forall|i: int| 0 <= i < r.len() implies (#[trigger] r[i]).0 == key || exists|j: int|
            0 <= j < entries.len() && entries[j].0 == r[i].0 by {
            assert(r[i].0 == entries[i].0);
        }
    } else if text_less(key, entries[0].0) {
        assert forall|i: int, j: int| 0 <= i < j < r.len() implies text_less(#[trigger] r[i].0, #[trigger] r[j].0) by {
            if i == 0 {
                if j > 1 {
                    lemma_less_transitive(key, entries[0].0, entries[j - 1].0);
                }
            } else {
                assert(r[i] == entries[i - 1] && r[j] == entries[j - 1]);
            }
        }
        assert forall|i: int| 0 <= i < r.len() implies (#[trigger] r[i]).0 == key || exists|j: int|
            0 <= j < entries.len() && entries[j].0 == r[i].0 by {
            if i > 0 {
                assert(r[i] == entries[i - 1]);
            }
        }
    } else {
        lemma_less_total(key, entries[0].0);
        let rest = entries.drop_first();
        assert(strictly_sorted(rest)) by {
            assert forall|i: int, j: int| 0 <= i < j < rest.len() implies text_less(#[trigger] rest[i].0, #[trigger] rest[j].0) by {
                assert(rest[i] == entries[i + 1] && rest[j] == entries[j + 1]);
            }
        }
        lemma_sorted_insert_sorted(rest, key, value);
        let t = sorted_insert(rest, key, value);
        assert(r == seq![entries[0]] + t);
        assert forall|i: int| 0 <= i < t.len() implies text_less(entries[0].0, #[trigger] t[i].0) by {
            if t[i].0 != key {
                let j = choose|j: int| 0 <= j < rest.len() && rest[j].0 == t[i].0;
                assert(rest[j] == entries[j + 1]);
            }
        }
        assert forall|i: int, j: int| 0 <= i < j < r.len() implies text_less(#[trigger] r[i].0, #[trigger] r[j].0) by {
            if i == 0 {
                assert(r[j] == t[j - 1]);
            } else {
                assert(r[i] == t[i - 1] && r[j] == t[j - 1]);
            }
        }
        assert forall|i: int| 0 <= i < r.len() implies (#[trigger] r[i]).0 == key || exists|j: int|
            0 <= j < entries.len() && entries[j].0 == r[i].0 by {
            if i > 0 {
                assert(r[i] == t[i - 1]);
                if t[i - 1].0 != key {
                    let j = choose|j: int| 0 <= j < rest.len() && rest[j].0 == t[i - 1].0;
                    assert(entries[j + 1].0 == r[i].0);
                }
            } else {
                assert(entries[0].0 == r[0].0);
            }
        }
    }
}

/// `lookup` reads the entry `position` found, or nothing when there is none.
proof fn lemma_lookup_at<V>(entries: Seq<(Seq<char>, V)>, key: Seq<char>, at: int)
    requires
        0 <= at <= entries.len(),
        forall|i: int| 0 <= i < at ==> entries[i].0 != key,
    ensures
        lookup(entries, key) == lookup(entries.skip(at), key),
    decreases at,
{
    if at > 0 {
        assert(entries.skip(at - 1).drop_first() =~= entries.skip(at));
        lemma_lookup_at(entries, key, at - 1);
        assert(entries.skip(at - 1)[0] == entries[at - 1]);
    } else {
        assert(entries.skip(0) =~= entries);
    }
}

/// A key none of the entries carry is looked up as nothing.
proof fn lemma_lookup_absent<V>(entries: Seq<(Seq<char>, V)>, key: Seq<char>)
    requires
        forall|i: int| 0 <= i < entries.len() ==> entries[i].0 != key,
    ensures
        lookup(entries, key) is None,
    decreases entries.len(),
{
    if entries.len() > 0 {
        lemma_lookup_absent(entries.drop_first(), key);
    }
}

/// In strictly sorted entries each key stands at one place.
pub proof fn lemma_sorted_unique<V>(entries: Seq<(Seq<char>, V)>, i: int, j: int)
    requires
        strictly_sorted(entries),
        0 <= i < entries.len(),
        0 <= j < entries.len(),
        entries[i].0 == entries[j].0,
    ensures
        i == j,
{
    if i < j {
        assert(text_less(entries[i].0, entries[j].0));
        lemma_less_irreflexive(entries[i].0);
    } else if j < i {
        assert(text_less(entries[j].0, entries[i].0));
        lemma_less_irreflexive(entries[i].0);
    }
}

/// `entries` without the entries for `key`.
pub open spec fn remove_key<V>(entries: Seq<(Seq<char>, V)>, key: Seq<char>) -> Seq<(Seq<char>, V)>
    decreases entries.len(),
{
    if entries.len() == 0 {
        Seq::empty()
    } else if entries[0].0 == key {
        remove_key(entries.drop_first(), key)
    } else {
        seq![entries[0]] + remove_key(entries.drop_first(), key)
    }
}

/// Looking up after an insert finds what was inserted, and nothing else moves.
pub proof fn lemma_lookup_insert<V>(entries: Seq<(Seq<char>, V)>, key: Seq<char>, value: V, other: Seq<char>)
    ensures
        lookup(sorted_insert(entries, key, value), other) == if other == key {
            Some(value)
        } else {
            lookup(entries, other)
        },
    decreases entries.len(),
{
    let ins = sorted_insert(entries, key, value);
    if entries.len() == 0 {
        assert(ins == seq![(key, value)]);
        assert(ins.drop_first() =~= Seq::<(Seq<char>, V)>::empty());
        assert(ins[0] == (key, value));
    } else if entries[0].0 == key {
        assert(ins == seq![(key, value)] + entries.drop_first());
        assert(ins[0] == (key, value));
        assert(ins.drop_first() =~= entries.drop_first());
        assert(ins.len() > 0);
    } else if text_less(key, entries[0].0) {
        assert(ins == seq![(key, value)] + entries);
        assert(ins[0] == (key, value));
        assert(ins.drop_first() =~= entries);
        assert(ins.len() > 0);
    } else {
        lemma_lookup_insert(entries.drop_first(), key, value, other);
        assert(ins == seq![entries[0]] + sorted_insert(entries.drop_first(), key, value));
        assert(ins.drop_first() =~= sorted_insert(entries.drop_first(), key, value));
        assert(ins[0] == entries[0]);
        assert(ins.len() > 0);
        if other == entries[0].0 {
            assert(lookup(ins, other) == Some(entries[0].1));
        } else {
            assert(lookup(ins, other) == lookup(ins.drop_first(), other));
        }
    }
}

/// Looking up after a removal finds nothing for the key removed, and nothing else moves.
pub proof fn lemma_lookup_remove<V>(entries: Seq<(Seq<char>, V)>, key: Seq<char>, other: Seq<char>)
    ensures
        lookup(remove_key(entries, key), other) == if other == key {
            None
        } else {
            lookup(entries, other)
        },
    decreases entries.len(),
{
    if entries.len() > 0 {
        lemma_lookup_remove(entries.drop_first(), key, other);
        if entries[0].0 != key {
            assert((seq![entries[0]] + remove_key(entries.drop_first(), key)).drop_first() =~= remove_key(
                entries.drop_first(),
                key,
            ));
        }
    }
}

/// Where `key` stands once in sorted entries, removing it is removing that entry.
proof fn lemma_remove_at<V>(entries: Seq<(Seq<char>, V)>, key: Seq<char>, at: int)
    requires
        strictly_sorted(entries),
        0 <= at < entries.len(),
        entries[at].0 == key,
    ensures
        remove_key(entries, key) == entries.remove(at),
    decreases entries.len(),
{
    if at == 0 {
        assert forall|i: int| 0 <= i < entries.drop_first().len() implies entries.drop_first()[i].0 != key by {
            assert(text_less(entries[0].0, entries[i + 1].0));
            if entries[i + 1].0 == key {
                lemma_less_irreflexive(key);
            }
        }
        lemma_remove_absent(entries.drop_first(), key);
        assert(entries.remove(0) =~= entries.drop_first());
    } else {
        assert(text_less(entries[0].0, entries[at].0));
        if entries[0].0 == key {
            lemma_less_irreflexive(key);
        }
        let rest = entries.drop_first();
        assert(strictly_sorted(rest)) by {
            assert forall|i: int, j: int| 0 <= i < j < rest.len() implies text_less(#[trigger] rest[i].0, #[trigger] rest[j].0) by {
                assert(rest[i] == entries[i + 1] && rest[j] == entries[j + 1]);
                assert(text_less(entries[i + 1].0, entries[j + 1].0));
            }
        }
        lemma_remove_at(rest, key, at - 1);
        assert(seq![entries[0]] + rest.remove(at - 1) =~= entries.remove(at));
    }
}

/// Removing a key no entry carries changes nothing.
proof fn lemma_remove_absent<V>(entries: Seq<(Seq<char>, V)>, key: Seq<char>)
    requires
        forall|i: int| 0 <= i < entries.len() ==> entries[i].0 != key,
    ensures
        remove_key(entries, key) == entries,
    decreases entries.len(),
{
    if entries.len() > 0 {
        let rest = entries.drop_first();
        assert forall|i: int| 0 <= i < rest.len() implies rest[i].0 != key by {
            assert(rest[i] == entries[i + 1]);
        }
        lemma_remove_absent(rest, key);
        assert(seq![entries[0]] + rest =~= entries);
    }
}

/// A map keyed by token path, in path order.
#[derive(Debug)]
pub struct PathMap<V> {
    entries: Vec<(TokenPath, V)>,
}

impl<V> PathMap<V> {
    /// The entries in path order, keys as plain values.
    pub closed spec fn view_entries(&self) -> Seq<(Seq<char>, V)> {
        keyed(self.entries@)
    }

    /// The map's invariant: keys in strictly increasing order.
    pub closed spec fn well_formed(&self) -> bool {
        strictly_sorted(self.view_entries())
    }

    /// A well-formed map has its keys in order.
    pub proof fn lemma_sorted(&self)
        requires
            self.well_formed(),
        ensures
            strictly_sorted(self.view_entries()),
    {
    }

    /// An empty map.
    pub fn new() -> (map: PathMap<V>)
        ensures
            map.well_formed(),
            map.view_entries().len() == 0,
    {
        let map = PathMap { entries: Vec::new() };
        proof {
            assert(keyed(map.entries@) =~= Seq::<(Seq<char>, V)>::empty());
        }
        map
    }

    /// How many entries there are.
    pub fn len(&self) -> (n: usize)
        ensures
            n == self.view_entries().len(),
    {
        self.entries.len()
    }

    /// The entry at `i`, in path order.
    pub fn entry(&self, i: usize) -> (entry: &(TokenPath, V))
        requires
            i < self.view_entries().len(),
        ensures
            entry.0@ == self.view_entries()[i as int].0,
            entry.1 == self.view_entries()[i as int].1,
    {
        &self.entries[i]
    }

    /// Where `key` sits, or where it would be inserted.
    fn position(&self, key: &TokenPath) -> (found: (usize, bool))
        requires
            self.well_formed(),
        ensures
            found.0 <= self.view_entries().len(),
            found.1 ==> found.0 < self.view_entries().len() && self.view_entries()[found.0 as int].0
                == key@,
            !found.1 ==> forall|i: int|
                0 <= i < self.view_entries().len() ==> self.view_entries()[i].0 != key@,
            forall|i: int| 0 <= i < found.0 ==> text_less(self.view_entries()[i].0, key@),
            found.0 < self.view_entries().len() ==> self.view_entries()[found.0 as int].0 == key@
                || text_less(key@, self.view_entries()[found.0 as int].0),
    {
        let ghost entries = self.view_entries();
        let target = key.chars();
        let mut i: usize = 0;
        while i < self.entries.len()
            invariant
                i <= entries.len(),
                entries == self.view_entries(),
                entries.len() == self.entries@.len(),
                strictly_sorted(entries),
                target@ == key@,
                forall|j: int| 0 <= j < i ==> text_less(entries[j].0, key@),
            decreases entries.len() - i,
        {
            let here = self.entries[i].0.chars();
            assert(entries[i as int].0 == here@);
            if same_chars(here.as_slice(), target.as_slice()) {
                return (i, true);
            }
            if !less_chars(here.as_slice(), target.as_slice()) {
                proof {
                    lemma_less_total(here@, target@);
                    assert forall|j: int| 0 <= j < entries.len() implies entries[j].0 != key@ by {
                        if entries[j].0 == key@ {
                            if j > i {
                                lemma_less_transitive(key@, entries[i as int].0, entries[j].0);
                            }
                            lemma_less_irreflexive(key@);
                        }
                    }
                }
                return (i, false);
            }
            i = i + 1;
        }
        proof {
            assert forall|j: int| 0 <= j < entries.len() implies entries[j].0 != key@ by {
                if entries[j].0 == key@ {
                    lemma_less_irreflexive(key@);
                }
            }
        }
        (i, false)
    }

    /// The value bound to `key`.
    pub fn get(&self, key: &TokenPath) -> (value: Option<&V>)
        requires
            self.well_formed(),
        ensures
            value is Some <==> lookup(self.view_entries(), key@) is Some,
            value matches Some(v) ==> *v == lookup(self.view_entries(), key@)->0,
    {
        let (at, found) = self.position(key);
        proof {
            let entries = self.view_entries();
            if found {
                assert forall|i: int| 0 <= i < at implies entries[i].0 != key@ by {
                    if entries[i].0 == key@ {
                        lemma_less_irreflexive(key@);
                    }
                }
                lemma_lookup_at(entries, key@, at as int);
                assert(entries.skip(at as int)[0] == entries[at as int]);
            } else {
                lemma_lookup_absent(entries, key@);
            }
        }
        if found {
            Some(&self.entries[at].1)
        } else {
            None
        }
    }

    /// Where `key` is bound, in path order.
    pub fn find(&self, key: &TokenPath) -> (at: Option<usize>)
        requires
            self.well_formed(),
        ensures
            at matches Some(i) ==> i < self.view_entries().len() && self.view_entries()[i as int].0 == key@,
            at is None ==> forall|i: int| 0 <= i < self.view_entries().len() ==> self.view_entries()[i].0 != key@,
    {
        let (at, found) = self.position(key);
        if found {
            Some(at)
        } else {
            None
        }
    }

    /// Whether `key` is bound.
    pub fn contains(&self, key: &TokenPath) -> (found: bool)
        requires
            self.well_formed(),
        ensures
            found == lookup(self.view_entries(), key@) is Some,
    {
        self.get(key).is_some()
    }

    /// Unbinds `key`.
    pub fn remove(&mut self, key: &TokenPath)
        requires
            old(self).well_formed(),
        ensures
            final(self).well_formed(),
            final(self).view_entries() == remove_key(old(self).view_entries(), key@),
    {
        let ghost before = self.view_entries();
        let (at, found) = self.position(key);
        if found {
            proof {
                lemma_remove_at(before, key@, at as int);
            }
            self.entries.remove(at);
            proof {
                let after = self.view_entries();
                assert(after =~= before.remove(at as int));
                assert(strictly_sorted(after)) by {
                    assert forall|i: int, j: int| 0 <= i < j < after.len() implies text_less(
                        #[trigger] after[i].0,
                        #[trigger] after[j].0,
                    ) by {
                        let a = if i < at { i } else { i + 1 };
                        let b = if j < at { j } else { j + 1 };
                        assert(after[i] == before[a] && after[j] == before[b]);
                    }
                }
            }
        } else {
            proof {
                lemma_remove_absent(before, key@);
            }
        }
    }

    /// Binds `key` to `value`, replacing what it was bound to.
    pub fn insert(&mut self, key: TokenPath, value: V)
        requires
            old(self).well_formed(),
        ensures
            final(self).well_formed(),
            final(self).view_entries() == sorted_insert(old(self).view_entries(), key@, value),
    {
        let ghost before = self.view_entries();
        let ghost k = key@;
        let (at, found) = self.position(&key);
        proof {
            lemma_sorted_insert_at(before, k, value, at as int);
        }
        if found {
            self.entries.set(at, (key, value));
            proof {
                let after = self.view_entries();
                assert(after =~= before.update(at as int, (k, value)));
                assert(strictly_sorted(after)) by {
                    assert forall|i: int, j: int| 0 <= i < j < after.len() implies text_less(
                        #[trigger] after[i].0,
                        #[trigger] after[j].0,
                    ) by {
                        assert(text_less(before[i].0, before[j].0));
                    }
                }
            }
        } else {
            self.entries.insert(at, (key, value));
            proof {
                let after = self.view_entries();
                assert(after =~= before.insert(at as int, (k, value)));
                assert(strictly_sorted(after)) by {
                    assert forall|i: int, j: int| 0 <= i < j < after.len() implies text_less(
                        #[trigger] after[i].0,
                        #[trigger] after[j].0,
                    ) by {
                        if j < at {
                            assert(text_less(before[i].0, before[j].0));
                        } else if j == at {
                            assert(after[i].0 == before[i].0);
                        } else if i < at {
                            assert(after[j].0 == before[j - 1].0);
                            if j - 1 > at {
                                lemma_less_transitive(k, before[at as int].0, before[j - 1].0);
                            }
                            lemma_less_transitive(before[i].0, k, before[j - 1].0);
                        } else if i == at {
                            assert(after[j].0 == before[j - 1].0);
                            if j - 1 > at {
                                lemma_less_transitive(k, before[at as int].0, before[j - 1].0);
                            }
                        } else {
                            assert(text_less(before[i - 1].0, before[j - 1].0));
                        }
                    }
                }
            }
        }
    }
}

} // verus!
