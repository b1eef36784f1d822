//! Reading what somebody typed at a prompt: a name, several names, nothing, or `-`.

use vstd::prelude::*;

use crate::text::{chars_of, push_str, string_of};
use crate::token::{is_path_spec, is_segment_spec, joined, TokenPath};

verus! {

/// What one answer to `token name?` said.
#[derive(Debug, PartialEq, Eq)]
pub enum Answer {
    /// Nothing was typed: take the default, or skip when there is none.
    Default,
    /// `-`: skip, whether or not there is a default.
    Skip,
    /// One token, or several when the value means more than one thing.
    Tokens(Vec<TokenPath>),
}

/// An answer that is not a token name.
#[derive(Debug, PartialEq, Eq)]
pub struct AnswerError {
    /// What was typed.
    pub text: String,
}

/// Whether `c` is white space, as Unicode's `White_Space` property has it.
pub open spec fn is_space(c: char) -> bool {
    ('\u{9}' <= c && c <= '\u{d}') || c == ' ' || c == '\u{85}' || c == '\u{a0}' || c == '\u{1680}'
        || ('\u{2000}' <= c && c <= '\u{200a}') || c == '\u{2028}' || c == '\u{2029}' || c
        == '\u{202f}' || c == '\u{205f}' || c == '\u{3000}'
}

/// The words of `s`: its longest runs of characters that are not white space, in order.
pub open spec fn words_of(s: Seq<char>) -> Seq<Seq<char>>
    decreases s.len(),
{
    if s.len() == 0 {
        Seq::empty()
    } else {
        let before = words_of(s.drop_last());
        let c = s.last();
        if is_space(c) {
            before
        } else if s.len() >= 2 && !is_space(s[s.len() - 2]) {
            before.update(before.len() - 1, before.last().push(c))
        } else {
            before.push(seq![c])
        }
    }
}

/// The token one word names: the path as written when it holds a `.`, else a `role` token.
pub open spec fn word_path(word: Seq<char>) -> Option<Seq<char>> {
    if word.contains('.') {
        if is_path_spec(word) {
            Some(word)
        } else {
            None
        }
    } else if is_segment_spec(word) {
        Some(joined("role"@, word))
    } else {
        None
    }
}

/// What `text` answers, as plain values: the tokens, or the first word that names none.
pub enum AnswerView {
    Default,
    Skip,
    Tokens(Seq<Seq<char>>),
    Invalid(Seq<char>),
}

/// The tokens the words from `k` on name, or the first that names none.
pub open spec fn words_answer(words: Seq<Seq<char>>, k: int) -> AnswerView
    decreases words.len() - k,
{
    if k >= words.len() {
        AnswerView::Tokens(Seq::empty())
    } else {
        match word_path(words[k]) {
            None => AnswerView::Invalid(words[k]),
            Some(path) => match words_answer(words, k + 1) {
                AnswerView::Tokens(rest) => AnswerView::Tokens(seq![path] + rest),
                other => other,
            },
        }
    }
}

/// What `text` answers.
pub open spec fn answer_spec(text: Seq<char>) -> AnswerView {
    let words = words_of(text);
    if words.len() == 0 {
        AnswerView::Default
    } else if words == seq![seq!['-']] {
        AnswerView::Skip
    } else {
        words_answer(words, 0)
    }
}

/// The outcome of reading an answer, as plain values.
pub open spec fn answer_view(result: Result<Answer, AnswerError>) -> AnswerView {
    match result {
        Ok(Answer::Default) => AnswerView::Default,
        Ok(Answer::Skip) => AnswerView::Skip,
        Ok(Answer::Tokens(paths)) => AnswerView::Tokens(paths@.map_values(|p: TokenPath| p@)),
        Err(error) => AnswerView::Invalid(error.text@),
    }
}

/// Whether `c` is white space.
pub fn is_space_char(c: char) -> (yes: bool)
    ensures
        yes == is_space(c),
{
    ('\u{9}' <= c && c <= '\u{d}') || c == ' ' || c == '\u{85}' || c == '\u{a0}' || c == '\u{1680}'
        || ('\u{2000}' <= c && c <= '\u{200a}') || c == '\u{2028}' || c == '\u{2029}' || c
        == '\u{202f}' || c == '\u{205f}' || c == '\u{3000}'
}

/// The words of `chars`.
fn words(chars: &[char]) -> (words: Vec<Vec<char>>)
    ensures
        words@.map_values(|w: Vec<char>| w@) == words_of(chars@),
{
    let mut done: Vec<Vec<char>> = Vec::new();
    let mut current: Vec<char> = Vec::new();
    let mut i: usize = 0;
    proof {
        assert(chars@.take(0) =~= Seq::<char>::empty());
        assert(done@.map_values(|w: Vec<char>| w@) =~= Seq::<Seq<char>>::empty());
    }
    while i < chars.len()
        invariant
            i <= chars@.len(),
            current@.len() > 0 ==> i > 0 && !is_space(chars@[i - 1]),
            i > 0 && !is_space(chars@[i - 1]) ==> current@.len() > 0,
            words_of(chars@.take(i as int)) == if current@.len() > 0 {
                done@.map_values(|w: Vec<char>| w@).push(current@)
            } else {
                done@.map_values(|w: Vec<char>| w@)
            },
        decreases chars@.len() - i,
    {
        let c = chars[i];
        let ghost prefix = chars@.take(i + 1);
        proof {
            assert(prefix.drop_last() =~= chars@.take(i as int));
            assert(prefix.last() == c);
            if i >= 1 {
                assert(prefix[prefix.len() - 2] == chars@[i - 1]);
            }
        }
        if is_space_char(c) {
            if current.len() > 0 {
                let ghost before = done@.map_values(|w: Vec<char>| w@);
                done.push(current);
                current = Vec::new();
                proof {
                    assert(done@.map_values(|w: Vec<char>| w@) =~= before.push(done@.last()@));
                }
            }
        } else {
            let ghost before = current@;
            current.push(c);
            proof {
                let ws = done@.map_values(|w: Vec<char>| w@);
                if before.len() > 0 {
                    assert(ws.push(before).update(ws.len() as int, before.push(c)) =~= ws.push(current@));
                } else {
                    assert(current@ =~= seq![c]);
                }
            }
        }
        i = i + 1;
    }
    if current.len() > 0 {
        let ghost before = done@.map_values(|w: Vec<char>| w@);
        done.push(current);
        proof {
            assert(done@.map_values(|w: Vec<char>| w@) =~= before.push(done@.last()@));
        }
    }
    proof {
        assert(chars@.take(chars@.len() as int) =~= chars@);
    }
    done
}

/// The token one word names.
fn path_of(word: &[char]) -> (path: Option<TokenPath>)
    ensures
        path is Some <==> word_path(word@) is Some,
        path matches Some(p) ==> p@ == word_path(word@)->0,
{
    let mut dotted = false;
    let mut i: usize = 0;
    while i < word.len()
        invariant
            i <= word@.len(),
            dotted == word@.take(i as int).contains('.'),
        decreases word@.len() - i,
    {
        proof {
            assert(word@.take(i + 1) =~= word@.take(i as int).push(word@[i as int]));
            if word@.take(i + 1).contains('.') && !word@.take(i as int).contains('.') {
                let j = choose|j: int| 0 <= j < i + 1 && #[trigger] word@.take(i + 1)[j] == '.';
                if j < i {
                    assert(word@.take(i as int)[j] == '.');
                }
            }
            if word@.take(i as int).contains('.') {
                let j = choose|j: int| 0 <= j < i && #[trigger] word@.take(i as int)[j] == '.';
                assert(word@.take(i + 1)[j] == '.');
            }
            if word@[i as int] == '.' {
                assert(word@.take(i + 1)[i as int] == '.');
            }
        }
        if word[i] == '.' {
            dotted = true;
        }
        i = i + 1;
    }
    proof {
        assert(word@.take(word@.len() as int) =~= word@);
    }
    if dotted {
        TokenPath::parse_chars(word)
    } else {
        let mut role: Vec<char> = Vec::new();
        push_str(&mut role, "role");
        proof {
            reveal_strlit("role");
            crate::token::lemma_segment_is_path(role@);
        }
        let role = TokenPath::from_chars(role.as_slice());
        let text = string_of(word);
        role.child(text.as_str())
    }
}

/// Reads `text` as an answer.
///
/// A bare name is a `role` token, which is what makes `bg` the whole answer for the token
/// most files start with. A name with a `.` in it is the path as written, so a value that
/// belongs somewhere else is still reachable without a second question.
pub fn answer(text: &str) -> (result: Result<Answer, AnswerError>)
    ensures
        answer_view(result) == answer_spec(text@),
{
    let chars = chars_of(text);
    let words = words(chars.as_slice());
    let ghost ws = words@.map_values(|w: Vec<char>| w@);
    if words.len() == 0 {
        return Ok(Answer::Default);
    }
    if words.len() == 1 && words[0].len() == 1 && words[0][0] == '-' {
        proof {
            assert(ws[0] == words@[0]@);
            assert(words@[0]@ =~= seq!['-']);
            assert(ws =~= seq![seq!['-']]);
        }
        return Ok(Answer::Skip);
    }
    proof {
        if ws == seq![seq!['-']] {
            assert(ws[0] == words@[0]@);
            assert(words@[0]@.len() == 1);
        }
    }
    let mut paths: Vec<TokenPath> = Vec::new();
    let mut k: usize = 0;
    while k < words.len()
        invariant
            k <= words@.len(),
            ws == words@.map_values(|w: Vec<char>| w@),
            ws == words_of(text@),
            ws.len() > 0,
            ws != seq![seq!['-']],
            forall|j: int| 0 <= j < k ==> word_path(#[trigger] ws[j]) is Some,
            paths@.map_values(|p: TokenPath| p@) == Seq::new(k as nat, |j: int| word_path(ws[j])->0),
        decreases words@.len() - k,
    {
        let word = &words[k];
        proof {
            assert(ws[k as int] == word@);
        }
        match path_of(word.as_slice()) {
            Some(path) => {
                let ghost before = paths@.map_values(|p: TokenPath| p@);
                let ghost p = path@;
                paths.push(path);
                proof {
                    let f = Seq::new((k + 1) as nat, |j: int| word_path(ws[j])->0);
                    assert(paths@.map_values(|p: TokenPath| p@) =~= before.push(p));
                    assert forall|j: int| 0 <= j < k + 1 implies #[trigger] before.push(p)[j] == f[j] by {
                        if j < k {
                            assert(before[j] == Seq::new(k as nat, |j: int| word_path(ws[j])->0)[j]);
                        }
                    }
                    assert(before.push(p) =~= f);
                }
            },
            None => {
                proof {
                    lemma_words_answer_prefix(ws, k as int);
                }
                return Err(AnswerError { text: string_of(word.as_slice()) });
            },
        }
        k = k + 1;
    }
    proof {
        lemma_words_answer_all(ws, 0);
        assert(Seq::new(ws.len(), |j: int| word_path(ws[j])->0).subrange(0, ws.len() as int) =~= Seq::new(
            ws.len(),
            |j: int| word_path(ws[j])->0,
        ));
    }
    Ok(Answer::Tokens(paths))
}

/// An answer is read word by word: no word is the default, a lone `-` skips, and otherwise
/// each word names one token in order (a bare segment a `role` token, a dotted path itself),
/// or the answer is the first word that names none.
pub proof fn lemma_answer_word_by_word(text: Seq<char>)
    ensures
        words_of(text).len() == 0 ==> answer_spec(text) == AnswerView::Default,
        words_of(text) == seq![seq!['-']] ==> answer_spec(text) == AnswerView::Skip,
        words_of(text).len() > 0 && words_of(text) != seq![seq!['-']] && (forall|j: int|
            0 <= j < words_of(text).len() ==> word_path(#[trigger] words_of(text)[j]) is Some) ==> answer_spec(text)
            == AnswerView::Tokens(Seq::new(words_of(text).len(), |j: int| word_path(words_of(text)[j])->0)),
        forall|k: int|
            0 <= k < words_of(text).len() && words_of(text) != seq![seq!['-']] && word_path(
                #[trigger] words_of(text)[k],
            ) is None && (forall|j: int| 0 <= j < k ==> word_path(#[trigger] words_of(text)[j]) is Some)
                ==> answer_spec(text) == AnswerView::Invalid(words_of(text)[k]),
{
    let ws = words_of(text);
    if ws.len() > 0 && ws != seq![seq!['-']] && (forall|j: int| 0 <= j < ws.len() ==> word_path(#[trigger] ws[j]) is Some) {
        lemma_words_answer_all(ws, 0);
        assert(Seq::new(ws.len(), |j: int| word_path(ws[j])->0).subrange(0, ws.len() as int) =~= Seq::new(
            ws.len(),
            |j: int| word_path(ws[j])->0,
        ));
    }
    assert forall|k: int|
        0 <= k < ws.len() && ws != seq![seq!['-']] && word_path(#[trigger] ws[k]) is None && (forall|j: int|
            0 <= j < k ==> word_path(#[trigger] ws[j]) is Some) implies answer_spec(text) == AnswerView::Invalid(ws[k]) by {
        lemma_words_answer_prefix(ws, k);
    }
}

/// When every word before `k` names a token and `ws[k]` does not, the answer is that word.
proof fn lemma_words_answer_prefix(ws: Seq<Seq<char>>, k: int)
    requires
        0 <= k < ws.len(),
        forall|j: int| 0 <= j < k ==> word_path(#[trigger] ws[j]) is Some,
        word_path(ws[k]) is None,
    ensures
        words_answer(ws, 0) == AnswerView::Invalid(ws[k]),
    decreases k,
{
    lemma_words_answer_from(ws, 0, k);
}

proof fn lemma_words_answer_from(ws: Seq<Seq<char>>, from: int, k: int)
    requires
        0 <= from <= k < ws.len(),
        forall|j: int| from <= j < k ==> word_path(#[trigger] ws[j]) is Some,
        word_path(ws[k]) is None,
    ensures
        words_answer(ws, from) == AnswerView::Invalid(ws[k]),
    decreases k - from,
{
    if from < k {
        lemma_words_answer_from(ws, from + 1, k);
    }
}

/// When every word from `from` on names a token, the answer is those tokens.
proof fn lemma_words_answer_all(ws: Seq<Seq<char>>, from: int)
    requires
        0 <= from <= ws.len(),
        forall|j: int| from <= j < ws.len() ==> word_path(#[trigger] ws[j]) is Some,
    ensures
        words_answer(ws, from) == AnswerView::Tokens(
            Seq::new(ws.len(), |j: int| word_path(ws[j])->0).subrange(from, ws.len() as int),
        ),
    decreases ws.len() - from,
{
    let all = Seq::new(ws.len(), |j: int| word_path(ws[j])->0);
    if from < ws.len() {
        lemma_words_answer_all(ws, from + 1);
        assert(all.subrange(from, ws.len() as int) =~= seq![all[from]] + all.subrange(from + 1, ws.len() as int));
    } else {
        assert(all.subrange(from, ws.len() as int) =~= Seq::<Seq<char>>::empty());
    }
}

impl AnswerError {
    /// What the error says.
    pub fn message(&self) -> (text: String)
        ensures
            text@ == "`"@ + self.text@ + "` is not a token name: lowercase, digits, internal hyphens, `.` between them"@,
    {
        let mut out: Vec<char> = Vec::new();
        push_str(&mut out, "`");
        push_str(&mut out, self.text.as_str());
        push_str(&mut out, "` is not a token name: lowercase, digits, internal hyphens, `.` between them");
        string_of(out.as_slice())
    }
}

} // verus!
