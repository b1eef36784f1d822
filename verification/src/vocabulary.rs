//! The tokens every theme is expected to define.
//!
//! The list is compiled in: a theme cannot extend it and nothing reads it from a file. An
//! incomplete theme is not a load error; this module only says what it lacks.

use vstd::prelude::*;

use crate::text::{decimal, decimal_chars, push_all, push_str};
use crate::token::{is_path_spec, TokenPath, Tokens};

verus! {

/// The seventeen `[role]` tokens, in the order the vocabulary tabulates them.
pub open spec fn role_paths() -> Seq<Seq<char>> {
    seq![
        "role.bg"@,
        "role.fg"@,
        "role.comment"@,
        "role.keyword"@,
        "role.string"@,
        "role.error"@,
        "role.ok"@,
        "role.warn"@,
        "role.visual"@,
        "role.linenr"@,
        "role.accent"@,
        "role.accent-alt"@,
        "role.accent-warm"@,
        "role.inactive"@,
        "role.border"@,
        "role.selection-bg"@,
        "role.hover-bg"@,
    ]
}

/// `ansi.N`.
pub open spec fn ansi_path(slot: nat) -> Seq<char> {
    "ansi."@ + decimal(slot)
}

/// The core vocabulary: `[role]` then the sixteen `[ansi]` slots.
pub open spec fn core_paths() -> Seq<Seq<char>> {
    role_paths() + Seq::new(16, |slot: int| ansi_path(slot as nat))
}

/// The paths as plain values.
pub open spec fn path_list(paths: Seq<TokenPath>) -> Seq<Seq<char>> {
    paths.map_values(|p: TokenPath| p@)
}

/// A path the caller knows to be one.
pub(crate) fn known(text: &str) -> (path: TokenPath)
    requires
        is_path_spec(text@),
    ensures
        path@ == text@,
{
    match TokenPath::parse(text) {
        Some(path) => path,
        None => {
            proof {
                assert(false);
            }
            TokenPath::parse(text).unwrap()
        },
    }
}

/// Appends `text`, which is a path, to `paths`.
fn push_known(paths: &mut Vec<TokenPath>, text: &str)
    requires
        is_path_spec(text@),
    ensures
        path_list(final(paths)@) == path_list(old(paths)@).push(text@),
{
    paths.push(known(text));
    proof {
        assert(path_list(final(paths)@) =~= path_list(old(paths)@).push(text@));
    }
}

/// `ansi.N`, a path for every slot number.
pub(crate) fn ansi(slot: usize) -> (path: TokenPath)
    ensures
        path@ == ansi_path(slot as nat),
{
    let mut chars: Vec<char> = Vec::new();
    push_str(&mut chars, "ansi.");
    let digits = decimal_chars(slot);
    push_all(&mut chars, digits.as_slice());
    proof {
        reveal_strlit("ansi.");
        crate::text::lemma_decimal_digits(slot as nat);
        assert(chars@ =~= ansi_path(slot as nat));
        let s = chars@;
        assert forall|i: int| 0 <= i < s.len() implies #[trigger] crate::token::segment_char(s[i]) || (
        s[i] == '.' && crate::text::is_lower_or_digit(s[i - 1]) && crate::text::is_lower_or_digit(
            s[i + 1],
        )) by {
            if i >= 5 {
                assert(s[i] == decimal(slot as nat)[i - 5]);
            }
        }
        assert(s[5] == decimal(slot as nat)[0]);
        assert(s.last() == decimal(slot as nat).last());
    }
    TokenPath::from_chars(chars.as_slice())
}

/// The core vocabulary: `[role]` then `[ansi]`.
///
/// `[meta]` is left out. `format`, `name` and `variant` are required for a theme to load at
/// all, so a theme that can be asked this question already has them.
pub fn core_tokens() -> (paths: Vec<TokenPath>)
    ensures
        path_list(paths@) == core_paths(),
{
    let mut paths: Vec<TokenPath> = Vec::new();
    proof {
        reveal_strlit("role.bg");
        reveal_strlit("role.fg");
        reveal_strlit("role.comment");
        reveal_strlit("role.keyword");
        reveal_strlit("role.string");
        reveal_strlit("role.error");
        reveal_strlit("role.ok");
        reveal_strlit("role.warn");
        reveal_strlit("role.visual");
        reveal_strlit("role.linenr");
        reveal_strlit("role.accent");
        reveal_strlit("role.accent-alt");
        reveal_strlit("role.accent-warm");
        reveal_strlit("role.inactive");
        reveal_strlit("role.border");
        reveal_strlit("role.selection-bg");
        reveal_strlit("role.hover-bg");
    }
    push_known(&mut paths, "role.bg");
    push_known(&mut paths, "role.fg");
    push_known(&mut paths, "role.comment");
    push_known(&mut paths, "role.keyword");
    push_known(&mut paths, "role.string");
    push_known(&mut paths, "role.error");
    push_known(&mut paths, "role.ok");
    push_known(&mut paths, "role.warn");
    push_known(&mut paths, "role.visual");
    push_known(&mut paths, "role.linenr");
    push_known(&mut paths, "role.accent");
    push_known(&mut paths, "role.accent-alt");
    push_known(&mut paths, "role.accent-warm");
    push_known(&mut paths, "role.inactive");
    push_known(&mut paths, "role.border");
    push_known(&mut paths, "role.selection-bg");
    push_known(&mut paths, "role.hover-bg");
    proof {
        assert(path_list(paths@) =~= role_paths());
    }
    let mut slot: usize = 0;
    while slot < 16
        invariant
            slot <= 16,
            path_list(paths@) == role_paths() + Seq::new(slot as nat, |s: int| ansi_path(s as nat)),
        decreases 16 - slot,
    {
        let ghost before = path_list(paths@);
        paths.push(ansi(slot));
        proof {
            assert(path_list(paths@) =~= before.push(ansi_path(slot as nat)));
            assert(Seq::new((slot + 1) as nat, |s: int| ansi_path(s as nat)) =~= Seq::new(
                slot as nat,
                |s: int| ansi_path(s as nat),
            ).push(ansi_path(slot as nat)));
        }
        slot = slot + 1;
    }
    paths
}

/// The core paths `tokens` does not define, in core order.
pub open spec fn missing_paths(core: Seq<Seq<char>>, tokens: Map<Seq<char>, Seq<char>>) -> Seq<Seq<char>> {
    core.filter(|path: Seq<char>| !tokens.contains_key(path))
}

/// The core tokens `tokens` does not define, in core order.
pub fn missing(tokens: &Tokens) -> (paths: Vec<TokenPath>)
    ensures
        path_list(paths@) == missing_paths(core_paths(), tokens@),
{
    let all = core_tokens();
    let ghost core_list = path_list(all@);
    let mut paths: Vec<TokenPath> = Vec::new();
    let mut i: usize = 0;
    proof {
        assert(core_list.take(0).filter(|path: Seq<char>| !tokens@.contains_key(path)) =~= Seq::<Seq<char>>::empty());
        assert(path_list(paths@) =~= Seq::<Seq<char>>::empty());
    }
    while i < all.len()
        invariant
            i <= all@.len(),
            core_list == path_list(all@),
            path_list(paths@) == core_list.take(i as int).filter(|path: Seq<char>| !tokens@.contains_key(path)),
        decreases all@.len() - i,
    {
        let ghost before = path_list(paths@);
        let path = &all[i];
        proof {
            assert(core_list.take(i + 1).drop_last() =~= core_list.take(i as int));
            assert(core_list.take(i + 1).last() == path@);
            reveal(Seq::filter);
        }
        if tokens.get(path).is_none() {
            paths.push(path.clone());
            proof {
                assert(path_list(paths@) =~= before.push(path@));
            }
        }
        i = i + 1;
    }
    proof {
        assert(core_list.take(all@.len() as int) =~= core_list);
    }
    paths
}

} // verus!
