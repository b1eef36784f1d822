//! The YAML an upstream scheme is written in.
//!
//! Upstream schemes are a mapping of metadata plus nested mappings of colours, whatever the
//! system. `saphyr` parses the text; what it parses is lowered into [`YamlNode`], and the
//! functions here read that shape without knowing a slot name. Keys nothing reads are
//! ignored.

use vstd::prelude::*;

use saphyr::LoadableYamlNode;

use crate::scheme::{Problem, ProblemView};

verus! {

/// A YAML node, as far as a scheme reads one.
#[derive(Debug)]
pub enum YamlNode {
    /// A string scalar, quoted or not.
    Str(String),
    /// A mapping, its entries in document order.
    Mapping(Vec<YamlEntry>),
    /// Anything else: a number, a boolean, a sequence, a null.
    Other,
}

/// One entry of a mapping.
#[derive(Debug)]
pub struct YamlEntry {
    /// The key, when it is a string.
    pub key: Option<String>,
    /// What it holds.
    pub value: YamlNode,
}

/// Text `saphyr` could not parse.
#[derive(Debug)]
pub struct YamlSyntax {
    /// What `saphyr` says is wrong, as its error displays it.
    pub message: String,
}

/// The documents `saphyr::Yaml::load_from_str` reads `text` as, lowered into plain values.
pub uninterp spec fn yaml_stream(text: Seq<char>) -> Result<Vec<YamlNode>, YamlSyntax>;

#[verifier::external_type_specification]
#[verifier::external_body]
pub struct ExYaml<'input>(saphyr::Yaml<'input>);

/// Parses `text` with `saphyr::Yaml::load_from_str` and lowers every document. The contract
/// names the result: it is a function of `text` alone.
#[verifier::external_body]
pub(crate) fn parse_yaml(text: &str) -> (documents: Result<Vec<YamlNode>, YamlSyntax>)
    ensures
        documents == yaml_stream(text@),
{
    match saphyr::Yaml::load_from_str(text) {
        Ok(documents) => Ok(documents.iter().map(lower).collect()),
        Err(error) => Err(YamlSyntax { message: error.to_string() }),
    }
}

/// Lowers a `saphyr::Yaml`: `Yaml::as_str` for a string scalar, `Yaml::as_mapping` for a
/// mapping, whose iteration is document order. Claims nothing: only `parse_yaml` calls it.
#[verifier::external_body]
fn lower(node: &saphyr::Yaml) -> YamlNode {
    if let Some(text) = node.as_str() {
        return YamlNode::Str(text.to_owned());
    }
    match node.as_mapping() {
        Some(mapping) => YamlNode::Mapping(
            mapping.iter().map(|(key, value)| YamlEntry {
                key: key.as_str().map(|key| key.to_owned()),
                value: lower(value),
            }).collect(),
        ),
        None => YamlNode::Other,
    }
}

/// Whether `entry` is written under `key`.
pub open spec fn key_is(entry: YamlEntry, key: Seq<char>) -> bool {
    match entry.key {
        Some(k) => k@ == key,
        None => false,
    }
}

/// The value of the first of `entries[i..]` written under `key`.
pub open spec fn find_from(entries: Seq<YamlEntry>, key: Seq<char>, i: int) -> Option<YamlNode>
    decreases entries.len() - i,
{
    if i < 0 || i >= entries.len() {
        None
    } else if key_is(entries[i], key) {
        Some(entries[i].value)
    } else {
        find_from(entries, key, i + 1)
    }
}

/// What `node` holds under `key`, when it is a mapping that writes it.
pub open spec fn get_spec(node: YamlNode, key: Seq<char>) -> Option<YamlNode> {
    match node {
        YamlNode::Mapping(entries) => find_from(entries@, key, 0),
        _ => None,
    }
}

/// The string `key` holds, `None` when it is not written, or the problem with it.
pub open spec fn optional_spec(node: YamlNode, key: Seq<char>) -> Result<Option<Seq<char>>, ProblemView> {
    match get_spec(node, key) {
        None => Ok(None),
        Some(YamlNode::Str(text)) => Ok(Some(text@)),
        Some(_) => Err(ProblemView::Type(key, "a string"@)),
    }
}

/// The string `key` holds, or the problem with it.
pub open spec fn required_spec(node: YamlNode, key: Seq<char>) -> Result<Seq<char>, ProblemView> {
    match optional_spec(node, key) {
        Ok(Some(text)) => Ok(text),
        Ok(None) => Err(ProblemView::Missing(key)),
        Err(p) => Err(p),
    }
}

/// The mapping `key` holds, or the problem with it.
pub open spec fn nested_spec(node: YamlNode, key: Seq<char>) -> Result<YamlNode, ProblemView> {
    match get_spec(node, key) {
        None => Err(ProblemView::Missing(key)),
        Some(YamlNode::Mapping(entries)) => Ok(YamlNode::Mapping(entries)),
        Some(_) => Err(ProblemView::Type(key, "a mapping"@)),
    }
}

/// The entries of a mapping as key and value, when every key is a string.
pub open spec fn entries_spec(node: YamlNode, at: Seq<char>) -> Result<Seq<(Seq<char>, YamlNode)>, ProblemView> {
    match node {
        YamlNode::Mapping(entries) => if forall|i: int| 0 <= i < entries@.len() ==> (#[trigger] entries@[i]).key is Some {
            Ok(entries@.map_values(|e: YamlEntry| (e.key->0@, e.value)))
        } else {
            Err(ProblemView::Type(at, "a mapping with string keys"@))
        },
        _ => Err(ProblemView::Type(at, "a mapping"@)),
    }
}

/// The first document, which must be a mapping, of what `text` parses as.
pub open spec fn document_spec(text: Seq<char>) -> Result<YamlNode, ProblemView> {
    match yaml_stream(text) {
        Err(syntax) => Err(ProblemView::Yaml(syntax.message@)),
        Ok(documents) => if documents@.len() == 0 {
            Err(ProblemView::Document)
        } else {
            match documents@[0] {
                YamlNode::Mapping(entries) => Ok(YamlNode::Mapping(entries)),
                _ => Err(ProblemView::Document),
            }
        },
    }
}

/// Whether `a` and `b` are the same text.
fn same_text(a: &str, b: &str) -> (same: bool)
    ensures
        same == (a@ == b@),
{
    let a = crate::text::chars_of(a);
    let b = crate::text::chars_of(b);
    crate::text::same_chars(a.as_slice(), b.as_slice())
}

/// What `node` holds under `key`, when it is a mapping that writes it.
pub fn get<'a>(node: &'a YamlNode, key: &str) -> (found: Option<&'a YamlNode>)
    ensures
        match found {
            Some(value) => get_spec(*node, key@) == Some(*value),
            None => get_spec(*node, key@) is None,
        },
{
    match node {
        YamlNode::Mapping(entries) => {
            let mut i: usize = 0;
            while i < entries.len()
                invariant
                    i <= entries@.len(),
                    get_spec(*node, key@) == find_from(entries@, key@, i as int),
                decreases entries@.len() - i,
            {
                let entry = &entries[i];
                let matches = match &entry.key {
                    Some(k) => same_text(k.as_str(), key),
                    None => false,
                };
                proof {
                    assert(matches == key_is(entries@[i as int], key@));
                }
                if matches {
                    proof {
                        assert(find_from(entries@, key@, i as int) == Some(entries@[i as int].value));
                    }
                    return Some(&entry.value);
                }
                i = i + 1;
            }
            None
        },
        _ => None,
    }
}

/// Whether `node` is a mapping that writes `key`.
pub fn writes(node: &YamlNode, key: &str) -> (written: bool)
    ensures
        written == get_spec(*node, key@) is Some,
{
    get(node, key).is_some()
}

/// The problem as plain values, inside a result.
pub open spec fn lift<T>(result: Result<T, Problem>) -> Result<T, ProblemView> {
    match result {
        Ok(value) => Ok(value),
        Err(p) => Err(p@),
    }
}

/// The string `key` holds, or `None` when the mapping does not write it.
pub fn optional<'a>(node: &'a YamlNode, key: &str) -> (result: Result<Option<&'a str>, Problem>)
    ensures
        match (result, optional_spec(*node, key@)) {
            (Ok(Some(text)), Ok(Some(expected))) => text@ == expected,
            (Ok(None), Ok(None)) => true,
            (Err(p), Err(expected)) => p@ == expected,
            _ => false,
        },
{
    proof {
        reveal_strlit("a string");
    }
    match get(node, key) {
        None => Ok(None),
        Some(YamlNode::Str(text)) => Ok(Some(text.as_str())),
        Some(_) => Err(Problem::Type { key: key.to_owned(), expected: "a string" }),
    }
}

/// The string `key` holds.
pub fn required<'a>(node: &'a YamlNode, key: &'static str) -> (result: Result<&'a str, Problem>)
    ensures
        match (result, required_spec(*node, key@)) {
            (Ok(text), Ok(expected)) => text@ == expected,
            (Err(p), Err(expected)) => p@ == expected,
            _ => false,
        },
{
    match optional(node, key) {
        Ok(Some(text)) => Ok(text),
        Ok(None) => Err(Problem::Missing(key)),
        Err(p) => Err(p),
    }
}

/// The mapping `key` holds.
pub fn nested<'a>(node: &'a YamlNode, key: &'static str) -> (result: Result<&'a YamlNode, Problem>)
    ensures
        match (result, nested_spec(*node, key@)) {
            (Ok(value), Ok(expected)) => *value == expected,
            (Err(p), Err(expected)) => p@ == expected,
            _ => false,
        },
{
    proof {
        reveal_strlit("a mapping");
    }
    match get(node, key) {
        None => Err(Problem::Missing(key)),
        Some(value) => match value {
            YamlNode::Mapping(_) => Ok(value),
            _ => Err(Problem::Type { key: key.to_owned(), expected: "a mapping" }),
        },
    }
}

/// The entries of the mapping `node`, which `at` names, as key and value.
pub fn entries<'a>(node: &'a YamlNode, at: &str) -> (result: Result<Vec<(&'a str, &'a YamlNode)>, Problem>)
    ensures
        match (result, entries_spec(*node, at@)) {
            (Ok(pairs), Ok(expected)) => pairs@.len() == expected.len() && forall|i: int|
                0 <= i < pairs@.len() ==> (#[trigger] pairs@[i]).0@ == expected[i].0 && *pairs@[i].1
                    == expected[i].1,
            (Err(p), Err(expected)) => p@ == expected,
            _ => false,
        },
{
    proof {
        reveal_strlit("a mapping");
        reveal_strlit("a mapping with string keys");
    }
    match node {
        YamlNode::Mapping(list) => {
            let mut pairs: Vec<(&'a str, &'a YamlNode)> = Vec::new();
            let mut i: usize = 0;
            while i < list.len()
                invariant
                    i <= list@.len(),
                    pairs@.len() == i,
                    match *node {
                        YamlNode::Mapping(l) => l@ == list@,
                        _ => false,
                    },
                    forall|j: int| 0 <= j < i ==> (#[trigger] list@[j]).key is Some,
                    forall|j: int| 0 <= j < i ==> (#[trigger] pairs@[j]).0@ == list@[j].key->0@
                        && *pairs@[j].1 == list@[j].value,
                decreases list@.len() - i,
            {
                let entry = &list[i];
                match &entry.key {
                    Some(key) => {
                        pairs.push((key.as_str(), &entry.value));
                    },
                    None => {
                        proof {
                            assert(!(list@[i as int].key is Some));
                            assert(!(forall|j: int| 0 <= j < list@.len() ==> (#[trigger] list@[j]).key is Some));
                            assert(entries_spec(*node, at@) == Err::<Seq<(Seq<char>, YamlNode)>, ProblemView>(ProblemView::Type(at@, "a mapping with string keys"@)));
                        }
                        return Err(Problem::Type { key: at.to_owned(), expected: "a mapping with string keys" });
                    },
                }
                i = i + 1;
            }
            Ok(pairs)
        },
        _ => Err(Problem::Type { key: at.to_owned(), expected: "a mapping" }),
    }
}

/// The scheme's top-level mapping.
///
/// A stream carrying more than one document is read as its first, which is what a scheme
/// file with a trailing `---` amounts to.
pub fn document(text: &str) -> (result: Result<YamlNode, Problem>)
    ensures
        match (result, document_spec(text@)) {
            (Ok(node), Ok(expected)) => node == expected,
            (Err(p), Err(expected)) => p@ == expected,
            _ => false,
        },
{
    match parse_yaml(text) {
        Err(syntax) => Err(Problem::Yaml(syntax.message)),
        Ok(mut documents) => {
            if documents.len() == 0 {
                return Err(Problem::Document);
            }
            let first = documents.swap_remove(0);
            match first {
                YamlNode::Mapping(entries) => Ok(YamlNode::Mapping(entries)),
                _ => Err(Problem::Document),
            }
        },
    }
}

} // verus!
