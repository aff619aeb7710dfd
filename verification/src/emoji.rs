//! The emoji token type: an entry of the fixed catalog, identified by its
//! ordinal position.  Equality and ordering go by that ordinal.

use vstd::prelude::*;
use vstd::string::StrSliceExecFns;
use vstd::string::StringExecFns;

verus! {

/// One collectible emoji token.  It carries the emoji text itself and its
/// ordinal position in the catalog, which gives the canonical ordering.
#[derive(Clone, Copy, Debug)]
pub struct Emoji {
    emoji: &'static str,
    /// The position in the catalog (which is ordered).
    index: usize,
}

/// Relies on rand's `thread_rng` and `Rng::gen_range`: a random integer drawn
/// from `0..bound`, which panics only on an empty range.
#[verifier::external_body]
pub(crate) fn random_below(bound: usize) -> (r: usize)
    requires
        bound > 0,
    ensures
        r < bound,
{
    rand::Rng::gen_range(&mut rand::thread_rng(), 0..bound)
}

/// The character value of a single hexadecimal digit.
pub open spec fn hex_digit(d: int) -> char {
    if d == 0 { '0' }
    else if d == 1 { '1' }
    else if d == 2 { '2' }
    else if d == 3 { '3' }
    else if d == 4 { '4' }
    else if d == 5 { '5' }
    else if d == 6 { '6' }
    else if d == 7 { '7' }
    else if d == 8 { '8' }
    else if d == 9 { '9' }
    else if d == 10 { 'a' }
    else if d == 11 { 'b' }
    else if d == 12 { 'c' }
    else if d == 13 { 'd' }
    else if d == 14 { 'e' }
    else { 'f' }
}

/// The lower-case hexadecimal notation of `v`, without leading zeroes
/// (a single zero is written as "0").
pub open spec fn hex_chars(v: int) -> Seq<char>
    decreases v,
{
    if v < 16 {
        seq![hex_digit(v)]
    } else {
        hex_chars(v / 16).push(hex_digit(v % 16))
    }
}

/// The variation selector that Twemoji file names leave out on short emojis.
pub open spec fn is_vs16(c: char) -> bool {
    c == '\u{fe0f}'
}

/// The hexadecimal code points of the characters of `s`, joined by '-'.
/// When `short` holds, the variation selector VS16 is skipped entirely.
pub open spec fn file_name_body(s: Seq<char>, short: bool) -> Seq<char>
    decreases s.len(),
{
    if s.len() == 0 {
        Seq::empty()
    } else {
        let pre = file_name_body(s.drop_last(), short);
        let c = s.last();
        if short && is_vs16(c) {
            pre
        } else if pre.len() == 0 {
            hex_chars(c as int)
        } else {
            pre + seq!['-'] + hex_chars(c as int)
        }
    }
}

/// The Twemoji .svg file name for the emoji text `s`: the code points in
/// hexadecimal joined by '-', with ".svg" appended; VS16 is skipped when the
/// emoji is shorter than four characters.
pub open spec fn file_name_spec(s: Seq<char>) -> Seq<char> {
    file_name_body(s, s.len() < 4) + ".svg"@
}

fn hex_digit_str(d: u32) -> (r: &'static str)
    requires
        d < 16,
    ensures
        r@ =~= seq![hex_digit(d as int)],
{
    proof {
        reveal_strlit("0");
        reveal_strlit("1");
        reveal_strlit("2");
        reveal_strlit("3");
        reveal_strlit("4");
        reveal_strlit("5");
        reveal_strlit("6");
        reveal_strlit("7");
        reveal_strlit("8");
        reveal_strlit("9");
        reveal_strlit("a");
        reveal_strlit("b");
        reveal_strlit("c");
        reveal_strlit("d");
        reveal_strlit("e");
        reveal_strlit("f");
    }
    match d {
        0 => "0",
        1 => "1",
        2 => "2",
        3 => "3",
        4 => "4",
        5 => "5",
        6 => "6",
        7 => "7",
        8 => "8",
        9 => "9",
        10 => "a",
        11 => "b",
        12 => "c",
        13 => "d",
        14 => "e",
        _ => "f",
    }
}

/// Appends the hexadecimal notation of `v` to `out`.
fn push_hex(v: u32, out: &mut String)
    ensures
        final(out)@ == old(out)@ + hex_chars(v as int),
    decreases v,
{
    if v < 16 {
        out.append(hex_digit_str(v));
        proof {
            assert(final(out)@ =~= old(out)@ + hex_chars(v as int));
        }
    } else {
        push_hex(v / 16, out);
        out.append(hex_digit_str(v % 16));
        proof {
            assert(final(out)@ =~= old(out)@ + hex_chars(v as int));
        }
    }
}

impl Emoji {
    /// The catalog ordinal, as a spec value.
    pub closed spec fn idx(self) -> int {
        self.index as int
    }

    /// The emoji text, as a sequence of characters.
    pub closed spec fn text(self) -> Seq<char> {
        self.emoji@
    }

    pub fn new(emoji: &'static str, index: usize) -> (r: Emoji)
        ensures
            r.text() == emoji@,
            r.idx() == index as int,
    {
        Emoji { emoji, index }
    }

    pub fn as_str(&self) -> (r: &'static str)
        ensures
            r@ == self.text(),
    {
        self.emoji
    }

    pub fn index(&self) -> (r: usize)
        ensures
            r as int == self.idx(),
    {
        self.index
    }

    /// The file name of the Twemoji .svg file for this emoji, like "1f642.svg".
    pub fn file_name(&self) -> (r: String)
        ensures
            r@ == file_name_spec(self.text()),
    {
        let n = self.emoji.unicode_len();
        let is_short = n < 4;
        let mut out = String::new();
        let mut i: usize = 0;
        while i < n
            invariant
                n == self.text().len(),
                i <= n,
                is_short == (n < 4),
                out@ == file_name_body(self.text().take(i as int), is_short),
            decreases n - i,
        {
            let c = self.emoji.get_char(i);
            if !(is_short && c == '\u{fe0f}') {
                if out.as_str().unicode_len() > 0 {
                    out.append("-");
                    proof {
                        reveal_strlit("-");
                    }
                }
                push_hex(c as u32, &mut out);
            }
            proof {
                assert(self.text().take(i + 1).drop_last() =~= self.text().take(i as int));
                assert(self.text().take(i + 1).last() == c);
                assert(out@ =~= file_name_body(self.text().take(i + 1), is_short));
            }
            i = i + 1;
        }
        out.append(".svg");
        proof {
            assert(self.text().take(n as int) =~= self.text());
        }
        out
    }
}

/// The catalog as a lookup structure: the token for each emoji text, with the
/// ordinal given by its position.
pub struct EmojiMap {
    entries: Vec<Emoji>,
}

/// Whether the character sequences `a` and `b` are the same string.
pub(crate) fn str_eq(a: &str, b: &str) -> (r: bool)
    ensures
        r == (a@ == b@),
{
    let sa = String::from_str(a);
    let sb = String::from_str(b);
    sa == sb
}

impl EmojiMap {
    /// The catalog entries, in ordinal order.
    pub closed spec fn entries(self) -> Seq<Emoji> {
        self.entries@
    }

    /// Each entry sits at the position its ordinal names.
    pub open spec fn wf(self) -> bool {
        forall|i: int| 0 <= i < self.entries().len() ==> (#[trigger] self.entries()[i]).idx() == i
    }

    /// Whether some catalog entry has exactly the text `s`.
    pub open spec fn has_text(self, s: Seq<char>) -> bool {
        exists|i: int| 0 <= i < self.entries().len() && (#[trigger] self.entries()[i]).text() == s
    }

    /// How many entries the catalog has.
    pub fn len(&self) -> (r: usize)
        ensures
            r == self.entries().len(),
    {
        self.entries.len()
    }

    /// The catalog entry at a given ordinal.
    pub fn entry_at(&self, index: usize) -> (r: Emoji)
        requires
            index < self.entries().len(),
        ensures
            r == self.entries()[index as int],
    {
        self.entries[index]
    }

    /// A token drawn from the catalog at random.
    pub fn random(&self) -> (r: Emoji)
        requires
            self.entries().len() > 0,
        ensures
            exists|i: int| 0 <= i < self.entries().len() && r == #[trigger] self.entries()[i],
            self.wf() ==> 0 <= r.idx() < self.entries().len(),
    {
        let index = random_below(self.entries.len());
        proof {
            assert(self.entries()[index as int] == self.entries()[index as int]);
        }
        self.entries[index]
    }

    /// Looks an emoji up by its text.
    pub fn get(&self, emoji: &str) -> (r: Option<Emoji>)
        ensures
            r.is_some() == self.has_text(emoji@),
            match r {
                Some(e) => e.text() == emoji@ && exists|i: int|
                    0 <= i < self.entries().len() && e == #[trigger] self.entries()[i],
                None => true,
            },
    {
        let mut i: usize = 0;
        while i < self.entries.len()
            invariant
                i <= self.entries().len(),
                forall|j: int| 0 <= j < i ==> (#[trigger] self.entries()[j]).text() != emoji@,
            decreases self.entries.len() - i,
        {
            if str_eq(self.entries[i].as_str(), emoji) {
                return Some(self.entries[i]);
            }
            i = i + 1;
        }
        None
    }
}

/// Builds the catalog lookup structure from the fixed emoji list, which the
/// surrounding program supplies once at startup; the position of an entry in
/// the list is its ordinal.
pub fn make_emoji_map(list: &Vec<&'static str>) -> (r: EmojiMap)
    ensures
        r.wf(),
        r.entries().len() == list@.len(),
        forall|i: int| 0 <= i < list@.len() ==> (#[trigger] r.entries()[i]).text() == list@[i]@,
{
    let mut entries: Vec<Emoji> = Vec::new();
    let mut i: usize = 0;
    while i < list.len()
        invariant
            i <= list@.len(),
            entries@.len() == i,
            forall|j: int| 0 <= j < i ==> (#[trigger] entries@[j]).idx() == j,
            forall|j: int| 0 <= j < i ==> (#[trigger] entries@[j]).text() == list@[j]@,
        decreases list@.len() - i,
    {
        entries.push(Emoji::new(list[i], i));
        i = i + 1;
    }
    EmojiMap { entries }
}

} // verus!
