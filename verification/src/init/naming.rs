//! The two names `init` proposes: what to call the target, and what to call the theme.

use vstd::prelude::*;

use crate::config::TargetName;
use crate::text::{chars_of, lemma_split_on_len, split_on, split_chars, string_of};
use crate::theme::ThemeId;

verus! {

/// `c` in capitals, when it is a lowercase ASCII letter.
pub open spec fn upper(c: char) -> char {
    if 'a' <= c && c <= 'z' {
        ((c as u32) - 32) as char
    } else {
        c
    }
}

/// The display name of the identifier `id`: hyphens become spaces and the first character
/// of each word is capitalised.
pub open spec fn display_spec(id: Seq<char>) -> Seq<char> {
    Seq::new(
        id.len(),
        |i: int|
            if id[i] == '-' {
                ' '
            } else if i == 0 || id[i - 1] == '-' {
                upper(id[i])
            } else {
                id[i]
            },
    )
}

/// `word` with its first character capitalised.
pub open spec fn capitalised(word: Seq<char>) -> Seq<char> {
    if word.len() == 0 {
        word
    } else {
        word.update(0, upper(word[0]))
    }
}

/// `parts` joined by `sep`.
pub open spec fn joined_with(parts: Seq<Seq<char>>, sep: char) -> Seq<char>
    decreases parts.len(),
{
    if parts.len() == 0 {
        Seq::empty()
    } else if parts.len() == 1 {
        parts[0]
    } else {
        joined_with(parts.drop_last(), sep).push(sep) + parts.last()
    }
}

/// Adding a character to the last part adds it to the joined text.
proof fn lemma_joined_with_push(parts: Seq<Seq<char>>, sep: char, c: char)
    requires
        parts.len() > 0,
    ensures
        joined_with(parts.update(parts.len() - 1, parts.last().push(c)), sep) == joined_with(parts, sep).push(c),
{
    let q = parts.update(parts.len() - 1, parts.last().push(c));
    if parts.len() > 1 {
        assert(q.drop_last() =~= parts.drop_last());
        assert(joined_with(parts.drop_last(), sep).push(sep) + parts.last().push(c) =~= (joined_with(
            parts.drop_last(),
            sep,
        ).push(sep) + parts.last()).push(c));
    }
}

/// The display name is the words between the identifier's hyphens, each with its first
/// character capitalised, joined with spaces.
pub proof fn lemma_display_is_capitalised_words(id: Seq<char>)
    ensures
        display_spec(id) == joined_with(split_on(id, '-').map_values(|w: Seq<char>| capitalised(w)), ' '),
    decreases id.len(),
{
    let words = split_on(id, '-').map_values(|w: Seq<char>| capitalised(w));
    if id.len() == 0 {
        assert(words =~= seq![Seq::<char>::empty()]);
        assert(display_spec(id) =~= Seq::<char>::empty());
    } else {
        let t = id.drop_last();
        let c = id.last();
        lemma_display_is_capitalised_words(t);
        lemma_split_on_len(t, '-');
        let before = split_on(t, '-');
        let shown = before.map_values(|w: Seq<char>| capitalised(w));
        let x = if c == '-' {
            ' '
        } else if t.len() == 0 || t.last() == '-' {
            upper(c)
        } else {
            c
        };
        assert(display_spec(id) =~= display_spec(t).push(x)) by {
            assert forall|i: int| 0 <= i < t.len() implies display_spec(id)[i] == display_spec(t)[i] by {
                assert(id[i] == t[i]);
                if i > 0 {
                    assert(id[i - 1] == t[i - 1]);
                }
            }
            if t.len() > 0 {
                assert(id[id.len() - 2] == t.last());
            }
        }
        if c == '-' {
            assert(words =~= shown.push(Seq::<char>::empty()));
            assert(words.drop_last() =~= shown);
            assert(joined_with(shown, ' ').push(' ') + Seq::<char>::empty() =~= joined_with(shown, ' ').push(' '));
        } else {
            let last = before.last();
            if t.len() == 0 {
                assert(before =~= seq![Seq::<char>::empty()]);
            } else if t.last() == '-' {
                assert(last.len() == 0);
            } else {
                lemma_split_on_len(t.drop_last(), '-');
                assert(last.len() > 0);
            }
            let y = if last.len() == 0 {
                upper(c)
            } else {
                c
            };
            assert(capitalised(last.push(c)) =~= capitalised(last).push(y));
            assert(y == x);
            assert(words =~= shown.update(shown.len() - 1, shown.last().push(y)));
            lemma_joined_with_push(shown, ' ', y);
        }
    }
}

/// `c` in capitals, when it is a lowercase ASCII letter.
fn to_upper(c: char) -> (u: char)
    ensures
        u == upper(c),
{
    if 'a' <= c && c <= 'z' {
        let code = (c as u32 - 32) as u8;
        code as char
    } else {
        c
    }
}

/// A display name for the theme `id`: hyphens become spaces and each word is capitalised.
///
/// It is derived rather than asked for: a display string nothing resolves a theme by, and
/// `papercolor-light` cannot yield `PaperColor` however it is derived.
pub fn display_name(id: &ThemeId) -> (name: String)
    ensures
        name@ == display_spec(id@),
{
    let chars = chars_of(id.as_str());
    let mut out: Vec<char> = Vec::new();
    let mut i: usize = 0;
    while i < chars.len()
        invariant
            i <= chars@.len(),
            chars@ == id@,
            out@ == display_spec(chars@).take(i as int),
        decreases chars@.len() - i,
    {
        let c = chars[i];
        let d = if c == '-' {
            ' '
        } else if i == 0 || chars[i - 1] == '-' {
            to_upper(c)
        } else {
            c
        };
        out.push(d);
        proof {
            assert(display_spec(chars@).take(i + 1) =~= display_spec(chars@).take(i as int).push(d));
        }
        i = i + 1;
    }
    proof {
        assert(display_spec(chars@).take(chars@.len() as int) =~= display_spec(chars@));
    }
    string_of(out.as_slice())
}

/// The named components of a `/`-separated path: the parts between separators, the empty
/// ones and the `.` ones left out, which are the ones that can name a directory or a file.
pub open spec fn components(path: Seq<char>) -> Seq<Seq<char>> {
    named_parts(split_on(path, '/'))
}

/// The parts that name something: not empty, and not `.`.
pub open spec fn named_parts(parts: Seq<Seq<char>>) -> Seq<Seq<char>>
    decreases parts.len(),
{
    if parts.len() == 0 {
        parts
    } else {
        let before = named_parts(parts.drop_last());
        let part = parts.last();
        if part.len() > 0 && part != seq!['.'] {
            before.push(part)
        } else {
            before
        }
    }
}

/// Where `.config` first stands among `parts` from `i` on.
pub open spec fn config_at(parts: Seq<Seq<char>>, i: int) -> Option<int>
    decreases parts.len() - i,
{
    if i < 0 || i >= parts.len() {
        None
    } else if parts[i] == ".config"@ {
        Some(i)
    } else {
        config_at(parts, i + 1)
    }
}

/// Where the last `.` of `s` stands before `i`, or `-1`.
pub open spec fn last_dot_in(s: Seq<char>, i: int) -> int
    decreases i,
{
    if i <= 0 {
        -1
    } else if s[i - 1] == '.' {
        i - 1
    } else {
        last_dot_in(s, i - 1)
    }
}

/// Where the first `.` of `s` stands from `i` on, or its length.
pub open spec fn first_dot_in(s: Seq<char>, i: int) -> int
    decreases s.len() - i,
{
    if i < 0 || i >= s.len() {
        s.len() as int
    } else if s[i] == '.' {
        i
    } else {
        first_dot_in(s, i + 1)
    }
}

/// A file name without its extension: everything before the last `.`, unless that `.` is
/// the name's first character.
pub open spec fn stem_of(name: Seq<char>) -> Seq<char> {
    let dot = last_dot_in(name, name.len() as int);
    if dot > 0 {
        name.take(dot)
    } else {
        name
    }
}

/// The last component of `path` without its extension, when it names a file.
pub open spec fn file_stem_spec(path: Seq<char>) -> Option<Seq<char>> {
    let parts = components(path);
    if parts.len() == 0 || parts.last() == ".."@ {
        None
    } else {
        Some(stem_of(parts.last()))
    }
}

/// The name a target is read off of: the component after `.config`, or the file's stem.
pub open spec fn named_spec(path: Seq<char>) -> Option<Seq<char>> {
    let parts = components(path);
    match config_at(parts, 0) {
        Some(at) if at + 1 < parts.len() => Some(parts[at + 1]),
        _ => file_stem_spec(path),
    }
}

/// Whether `c` is an ASCII letter or digit.
pub open spec fn is_alnum(c: char) -> bool {
    ('a' <= c && c <= 'z') || ('A' <= c && c <= 'Z') || ('0' <= c && c <= '9')
}

/// `c` in lowercase, when it is an uppercase ASCII letter.
pub open spec fn lower(c: char) -> char {
    if 'A' <= c && c <= 'Z' {
        ((c as u32) + 32) as char
    } else {
        c
    }
}

/// `text` with letters and digits lowercased and every run of anything else written as one
/// hyphen.
pub open spec fn hyphenated(text: Seq<char>) -> Seq<char>
    decreases text.len(),
{
    if text.len() == 0 {
        Seq::empty()
    } else {
        let before = hyphenated(text.drop_last());
        let c = text.last();
        if is_alnum(c) {
            before.push(lower(c))
        } else if before.len() > 0 && before.last() == '-' {
            before
        } else {
            before.push('-')
        }
    }
}

/// `s` without the hyphens at either end.
pub open spec fn trim_hyphens(s: Seq<char>) -> Seq<char>
    decreases s.len(),
{
    if s.len() > 0 && s[0] == '-' {
        trim_hyphens(s.drop_first())
    } else if s.len() > 0 && s.last() == '-' {
        trim_hyphens(s.drop_last())
    } else {
        s
    }
}

/// `text` as a segment: lowercase, everything else run together into single hyphens, and
/// no hyphen at either end.
pub open spec fn segment_spec(text: Seq<char>) -> Seq<char> {
    trim_hyphens(hyphenated(text))
}

/// The target name suggested for the file `output`.
pub open spec fn suggest_spec(output: Seq<char>) -> Option<Seq<char>> {
    match named_spec(output) {
        None => None,
        Some(named) => {
            let candidate = segment_spec(named.take(first_dot_in(named, 0)));
            if crate::token::is_segment_spec(candidate) {
                Some(candidate)
            } else {
                None
            }
        },
    }
}

/// The named components of `path`.
pub(crate) fn path_components(path: &str) -> (parts: Vec<Vec<char>>)
    ensures
        parts@.map_values(|p: Vec<char>| p@) == components(path@),
{
    let chars = chars_of(path);
    let all = split_chars(chars.as_slice(), '/');
    let ghost views = all@.map_values(|p: Vec<char>| p@);
    let mut parts: Vec<Vec<char>> = Vec::new();
    let mut i: usize = 0;
    proof {
        assert(views.take(0) =~= Seq::<Seq<char>>::empty());
    }
    while i < all.len()
        invariant
            i <= all@.len(),
            views == all@.map_values(|p: Vec<char>| p@),
            views == split_on(path@, '/'),
            parts@.map_values(|p: Vec<char>| p@) == named_parts(views.take(i as int)),
        decreases all@.len() - i,
    {
        let part = &all[i];
        let keep = part.len() > 0 && !(part.len() == 1 && part[0] == '.');
        let ghost before = parts@.map_values(|p: Vec<char>| p@);
        proof {
            assert(views.take(i + 1).drop_last() =~= views.take(i as int));
            assert(keep == (part@.len() > 0 && part@ != seq!['.'])) by {
                if part@.len() == 1 && part@[0] == '.' {
                    assert(part@ =~= seq!['.']);
                }
                if part@ == seq!['.'] {
                    assert(part@.len() == 1 && part@[0] == '.');
                }
            }
        }
        if keep {
            parts.push(part.clone());
            proof {
                assert(parts@.map_values(|p: Vec<char>| p@) =~= before.push(part@));
            }
        }
        proof {
            assert(views.take(i + 1).last() == views[i as int]);
        }
        i = i + 1;
    }
    proof {
        assert(views.take(all@.len() as int) =~= views);
    }
    parts
}

/// Whether `s` is `.config`.
fn is_config_dir(s: &Vec<char>) -> (yes: bool)
    ensures
        yes == (s@ == ".config"@),
{
    proof {
        reveal_strlit(".config");
    }
    let config = chars_of(".config");
    crate::text::same_chars(s.as_slice(), config.as_slice())
}

/// `name` without its extension.
fn stem(name: &Vec<char>) -> (s: Vec<char>)
    ensures
        s@ == stem_of(name@),
{
    let mut i: usize = name.len();
    while i > 0 && name[i - 1] != '.'
        invariant
            i <= name@.len(),
            last_dot_in(name@, name@.len() as int) == last_dot_in(name@, i as int),
        decreases i,
    {
        i = i - 1;
    }
    if i > 1 {
        proof {
            assert(last_dot_in(name@, i as int) == i - 1);
        }
        let mut out: Vec<char> = Vec::new();
        let mut j: usize = 0;
        while j < i - 1
            invariant
                1 < i <= name@.len(),
                j <= i - 1,
                out@ == name@.take(j as int),
            decreases i - 1 - j,
        {
            out.push(name[j]);
            proof {
                assert(name@.take(j + 1) =~= name@.take(j as int).push(name@[j as int]));
            }
            j = j + 1;
        }
        out
    } else {
        proof {
            if i == 1 {
                assert(last_dot_in(name@, 1) == 0);
            } else {
                assert(last_dot_in(name@, 0) == -1);
            }
        }
        name.clone()
    }
}

/// `text` as a segment: lowercase, with everything else run together into single hyphens.
fn segment(text: &[char]) -> (s: Vec<char>)
    ensures
        s@ == segment_spec(text@),
{
    let mut out: Vec<char> = Vec::new();
    let mut i: usize = 0;
    while i < text.len()
        invariant
            i <= text@.len(),
            out@ == hyphenated(text@.take(i as int)),
        decreases text@.len() - i,
    {
        let c = text[i];
        proof {
            assert(text@.take(i + 1).drop_last() =~= text@.take(i as int));
        }
        if ('a' <= c && c <= 'z') || ('0' <= c && c <= '9') {
            out.push(c);
        } else if 'A' <= c && c <= 'Z' {
            out.push(((c as u32 + 32) as u8) as char);
        } else if out.len() == 0 || out[out.len() - 1] != '-' {
            out.push('-');
        }
        i = i + 1;
    }
    proof {
        assert(text@.take(text@.len() as int) =~= text@);
    }
    let mut start: usize = 0;
    let mut end: usize = out.len();
    proof {
        assert(out@.subrange(0, out@.len() as int) =~= out@);
    }
    while start < end && (out[start] == '-' || out[end - 1] == '-')
        invariant
            start <= end <= out@.len(),
            trim_hyphens(out@) == trim_hyphens(out@.subrange(start as int, end as int)),
        decreases end - start,
    {
        let ghost s = out@.subrange(start as int, end as int);
        if out[start] == '-' {
            proof {
                assert(s.drop_first() =~= out@.subrange(start + 1, end as int));
            }
            start = start + 1;
        } else {
            proof {
                assert(s.drop_last() =~= out@.subrange(start as int, end - 1));
            }
            end = end - 1;
        }
    }
    let mut trimmed: Vec<char> = Vec::new();
    let mut k: usize = start;
    while k < end
        invariant
            start <= k <= end <= out@.len(),
            trimmed@ == out@.subrange(start as int, k as int),
        decreases end - k,
    {
        trimmed.push(out[k]);
        proof {
            assert(out@.subrange(start as int, k + 1) =~= out@.subrange(start as int, k as int).push(out@[k as int]));
        }
        k = k + 1;
    }
    trimmed
}

/// A target name for the file `output`, or `None` when nothing usable can be read off it.
///
/// The component after `.config` is the tool, which is where `~/.config/nvim/lua/palette.lua`
/// gets `nvim` from. A path with no `.config` in it falls back to the file's own name. It is
/// a suggestion: the dialogue offers it and the user overrides it by typing.
pub fn suggest(output: &str) -> (name: Option<TargetName>)
    ensures
        match (name, suggest_spec(output@)) {
            (Some(n), Some(expected)) => n@ == expected,
            (None, None) => true,
            _ => false,
        },
{
    let parts = path_components(output);
    let ghost views = parts@.map_values(|p: Vec<char>| p@);
    let mut i: usize = 0;
    let mut found: Option<usize> = None;
    while i < parts.len()
        invariant_except_break
            found is None,
        invariant
            i <= parts@.len(),
            views == parts@.map_values(|p: Vec<char>| p@),
            config_at(views, 0) == config_at(views, i as int),
        ensures
            views == parts@.map_values(|p: Vec<char>| p@),
            match found {
                Some(at) => at < views.len() && config_at(views, 0) == Some(at as int),
                None => config_at(views, 0) is None,
            },
        decreases parts@.len() - i,
    {
        if is_config_dir(&parts[i]) {
            found = Some(i);
            break;
        }
        i = i + 1;
    }
    let named: Vec<char> = match found {
        Some(at) if at < parts.len() && parts.len() - at > 1 => parts[at + 1].clone(),
        _ => {
            let n = parts.len();
            proof {
                reveal_strlit("..");
            }
            if n == 0 {
                return None;
            }
            let dots = parts[n - 1].len() == 2 && parts[n - 1][0] == '.' && parts[n - 1][1] == '.';
            proof {
                assert(views.last() == parts@[n - 1]@);
                if dots {
                    assert(views.last() =~= ".."@);
                } else if views.last() == ".."@ {
                    assert(views.last()[0] == '.' && views.last()[1] == '.');
                }
            }
            if dots {
                return None;
            }
            stem(&parts[n - 1])
        },
    };
    let mut j: usize = 0;
    while j < named.len() && named[j] != '.'
        invariant
            j <= named@.len(),
            first_dot_in(named@, 0) == first_dot_in(named@, j as int),
        decreases named@.len() - j,
    {
        j = j + 1;
    }
    let mut head: Vec<char> = Vec::new();
    let mut k: usize = 0;
    while k < j
        invariant
            j <= named@.len(),
            k <= j,
            head@ == named@.take(k as int),
        decreases j - k,
    {
        head.push(named[k]);
        proof {
            assert(named@.take(k + 1) =~= named@.take(k as int).push(named@[k as int]));
        }
        k = k + 1;
    }
    let candidate = segment(head.as_slice());
    TargetName::parse(string_of(candidate.as_slice()).as_str())
}

} // verus!
