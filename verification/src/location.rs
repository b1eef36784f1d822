//! Paths as the library handles them: `/`-separated text.
//!
//! Joining and absoluteness follow `std::path` on Unix, the platform the command runs on:
//! a path is absolute when it starts with `/`, and joining an absolute path replaces what
//! came before it.

use vstd::prelude::*;

use crate::text::{chars_of, push_all, string_of};

verus! {

/// Whether `path` is absolute: it starts at the root.
pub open spec fn is_absolute_spec(path: Seq<char>) -> bool {
    path.len() > 0 && path[0] == '/'
}

/// `base` joined with `part`: `part` itself when it is absolute, else `part` after `base`
/// and a separator, which is not doubled and not put in front of an empty base.
pub open spec fn join_spec(base: Seq<char>, part: Seq<char>) -> Seq<char> {
    if is_absolute_spec(part) {
        part
    } else if base.len() == 0 || base.last() == '/' {
        base + part
    } else {
        base + seq!['/'] + part
    }
}

/// Whether `path` is absolute.
pub fn is_absolute(path: &str) -> (absolute: bool)
    ensures
        absolute == is_absolute_spec(path@),
{
    let chars = chars_of(path);
    chars.len() > 0 && chars[0] == '/'
}

/// `base` joined with `part`.
pub fn join(base: &str, part: &str) -> (joined: String)
    ensures
        joined@ == join_spec(base@, part@),
{
    let tail = chars_of(part);
    if tail.len() > 0 && tail[0] == '/' {
        return part.to_owned();
    }
    let mut out = chars_of(base);
    if out.len() > 0 && out[out.len() - 1] != '/' {
        out.push('/');
    }
    push_all(&mut out, tail.as_slice());
    proof {
        assert(out@ =~= join_spec(base@, part@));
    }
    string_of(out.as_slice())
}

} // verus!
