//! Unified diffs, for `apply --diff` and for a run of `init` that would not reproduce its file.
//!
//! Both sides name the same file, because they are the same file: what it holds now and what
//! would be put there. The diff itself is `similar`'s.

use vstd::prelude::*;

verus! {

/// What `similar` writes as the unified diff, by lines, of `before` against `after`, both
/// sides labelled `label`.
pub uninterp spec fn similar_unified(label: Seq<char>, before: Seq<char>, after: Seq<char>) -> Seq<char>;

/// `similar::TextDiff::from_lines(before, after).unified_diff()` with both headers `label`,
/// displayed. The contract names the result, which depends on the three texts alone.
#[verifier::external_body]
fn line_diff(label: &str, before: &str, after: &str) -> (diff: String)
    ensures
        diff@ == similar_unified(label@, before@, after@),
{
    similar::TextDiff::from_lines(before, after).unified_diff().header(label, label).to_string()
}

/// A unified diff of `before` against `after`, both labelled `path`, or nothing at all when
/// the two are the same.
pub open spec fn unified_spec(path: Seq<char>, before: Seq<char>, after: Seq<char>) -> Seq<char> {
    if before == after {
        Seq::empty()
    } else {
        similar_unified(path, before, after)
    }
}

/// A unified diff of `before` against `after`, both labelled `path`.
///
/// Empty when the two are identical, so a caller can print the result unconditionally and
/// say nothing about a file that would not change.
pub fn unified(path: &str, before: &str, after: &str) -> (diff: String)
    ensures
        diff@ == unified_spec(path@, before@, after@),
{
    let a = crate::text::chars_of(before);
    let b = crate::text::chars_of(after);
    if crate::text::same_chars(a.as_slice(), b.as_slice()) {
        return String::new();
    }
    line_diff(path, before, after)
}

} // verus!
