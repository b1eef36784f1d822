//! Colour written into the output that is already there.
//!
//! A swatch is one escape sequence and there is no state to keep, so the only decision is
//! whether to write it. That decision is made once and carried as a [`Paint`]: a command
//! that was not handed one does not paint.

use vstd::prelude::*;

use crate::text::{chars_of, decimal, decimal_chars, push_all, push_str, same_chars, string_of};
use crate::theme::{channel, is_hex_literal, rgb};

verus! {

/// Whether escape sequences are written.
#[derive(Debug, Clone, Copy)]
pub struct Paint {
    on: bool,
}

impl View for Paint {
    type V = bool;

    closed spec fn view(&self) -> bool {
        self.on
    }
}

/// Whether `text` is present and names what `word` spells.
pub open spec fn names(text: Option<Seq<char>>, word: Seq<char>) -> bool {
    text == Some(word)
}

/// An optional text as a plain value.
pub open spec fn opt_view(text: Option<&str>) -> Option<Seq<char>> {
    match text {
        Some(t) => Some(t@),
        None => None,
    }
}

/// Whether painting is wanted: a terminal, `NO_COLOR` unset or empty, a `TERM` that is not
/// `dumb`, and a `COLORTERM` saying twenty-four bit colour.
pub open spec fn wanted_spec(
    tty: bool,
    no_color: Option<Seq<char>>,
    term: Option<Seq<char>>,
    colorterm: Option<Seq<char>>,
) -> bool {
    &&& tty
    &&& (no_color is None || no_color->0.len() == 0)
    &&& !names(term, "dumb"@)
    &&& (names(colorterm, "truecolor"@) || names(colorterm, "24bit"@))
}

/// A block of the colour `value`, whose channels are `r`, `g` and `b`.
pub open spec fn block_text(r: nat, g: nat, b: nat) -> Seq<char> {
    "\x1b[48;2;"@ + decimal(r) + ";"@ + decimal(g) + ";"@ + decimal(b) + "m  \x1b[0m"@
}

/// The block `value` paints, when painting is on and `value` is a hex literal.
pub open spec fn block_spec(on: bool, value: Seq<char>) -> Option<Seq<char>> {
    if on && is_hex_literal(value) {
        Some(block_text(channel(value, 1), channel(value, 3), channel(value, 5)))
    } else {
        None
    }
}

/// The blocks of `values`, run together; an absent entry or one that is not a hex literal
/// takes a block's width in blanks.
pub open spec fn blocks_spec(on: bool, values: Seq<Option<Seq<char>>>) -> Seq<char>
    decreases values.len(),
{
    if values.len() == 0 {
        Seq::empty()
    } else {
        let last = match values.last() {
            Some(v) => match block_spec(on, v) {
                Some(block) => block,
                None => "  "@,
            },
            None => "  "@,
        };
        blocks_spec(on, values.drop_last()) + last
    }
}

/// The entries as plain values.
pub open spec fn entries_view(values: Seq<Option<&str>>) -> Seq<Option<Seq<char>>> {
    values.map_values(|v: Option<&str>| opt_view(v))
}

/// Whether `text` spells `word`.
fn spells(text: &str, word: &str) -> (same: bool)
    ensures
        same == (text@ == word@),
{
    let a = chars_of(text);
    let b = chars_of(word);
    same_chars(a.as_slice(), b.as_slice())
}

/// Whether `text` is present and spells `word`.
fn present_as(text: Option<&str>, word: &str) -> (same: bool)
    ensures
        same == names(opt_view(text), word@),
{
    match text {
        Some(t) => spells(t, word),
        None => false,
    }
}

impl Paint {
    /// Whether escape sequences are written.
    pub fn on(&self) -> (on: bool)
        ensures
            on == self@,
    {
        self.on
    }

    /// Decides whether a swatch would be seen.
    ///
    /// Painting needs all four to agree. The last is the one that is not a general
    /// convention: a palette is `#rrggbb`, and a 256-colour approximation would show a colour
    /// the theme does not hold, so the swatch appears where it is exact.
    pub fn wanted(tty: bool, no_color: Option<&str>, term: Option<&str>, colorterm: Option<&str>) -> (paint: Paint)
        ensures
            paint@ == wanted_spec(tty, opt_view(no_color), opt_view(term), opt_view(colorterm)),
    {
        let quiet = match no_color {
            Some(text) => text.unicode_len() == 0,
            None => true,
        };
        let on = tty && quiet && !present_as(term, "dumb") && (present_as(colorterm, "truecolor")
            || present_as(colorterm, "24bit"));
        Paint { on }
    }

    /// `value` as a block of background colour, or `None` when nothing is written.
    fn block(self, value: &str) -> (block: Option<Vec<char>>)
        ensures
            block is Some <==> block_spec(self@, value@) is Some,
            block matches Some(b) ==> b@ == block_spec(self@, value@)->0,
    {
        if !self.on {
            return None;
        }
        match rgb(value) {
            Some(channels) => {
                let mut out: Vec<char> = Vec::new();
                push_str(&mut out, "\x1b[48;2;");
                let red = decimal_chars(channels[0] as usize);
                push_all(&mut out, red.as_slice());
                push_str(&mut out, ";");
                let green = decimal_chars(channels[1] as usize);
                push_all(&mut out, green.as_slice());
                push_str(&mut out, ";");
                let blue = decimal_chars(channels[2] as usize);
                push_all(&mut out, blue.as_slice());
                push_str(&mut out, "m  \x1b[0m");
                proof {
                    crate::theme::lemma_channel_byte(value@, 1);
                    crate::theme::lemma_channel_byte(value@, 3);
                    crate::theme::lemma_channel_byte(value@, 5);
                    assert(channels@[0] == channels[0]);
                    assert(out@ =~= block_spec(self@, value@)->0);
                }
                Some(out)
            },
            None => None,
        }
    }

    /// A block of `value` and one space after it.
    ///
    /// Empty when painting is off, and empty when `value` is not a hex literal, so a caller
    /// writes it in front of what it describes and needs no branch of its own.
    pub fn swatch(&self, value: &str) -> (swatch: String)
        ensures
            swatch@ == match block_spec(self@, value@) {
                Some(block) => block + " "@,
                None => Seq::empty(),
            },
    {
        match self.block(value) {
            Some(block) => {
                let mut out = block;
                push_str(&mut out, " ");
                string_of(out.as_slice())
            },
            None => {
                let out: Vec<char> = Vec::new();
                proof {
                    assert(out@ =~= Seq::<char>::empty());
                }
                string_of(out.as_slice())
            },
        }
    }

    /// One block per entry, run together, and two spaces after them.
    ///
    /// An entry that is absent or is not a hex literal takes the width of a block in blanks,
    /// so a row of an incomplete theme stays aligned with the rows around it.
    pub fn strip(&self, values: &[Option<&str>]) -> (strip: String)
        ensures
            strip@ == if self@ {
                blocks_spec(self@, entries_view(values@)) + "  "@
            } else {
                Seq::empty()
            },
    {
        let mut out: Vec<char> = Vec::new();
        if !self.on {
            proof {
                assert(out@ =~= Seq::<char>::empty());
            }
            return string_of(out.as_slice());
        }
        let ghost views = entries_view(values@);
        let mut i: usize = 0;
        proof {
            assert(views.take(0) =~= Seq::<Option<Seq<char>>>::empty());
            assert(out@ =~= blocks_spec(self.on, views.take(0)));
        }
        while i < values.len()
            invariant
                i <= values@.len(),
                views == entries_view(values@),
                out@ == blocks_spec(self.on, views.take(i as int)),
            decreases values@.len() - i,
        {
            let entry = values[i];
            let block = match entry {
                Some(value) => self.block(value),
                None => None,
            };
            match block {
                Some(b) => push_all(&mut out, b.as_slice()),
                None => push_str(&mut out, "  "),
            }
            proof {
                assert(views.take(i + 1).drop_last() =~= views.take(i as int));
                assert(views.take(i + 1).last() == opt_view(entry));
            }
            i = i + 1;
        }
        push_str(&mut out, "  ");
        proof {
            assert(views.take(values@.len() as int) =~= views);
        }
        string_of(out.as_slice())
    }
}

} // verus!
