//! Small helpers on strings.

use vstd::prelude::*;
use vstd::string::StrSliceExecFns;
use crate::buffer::chars_of;

verus! {

/// The quote character that editor strings are delimited by.
pub const QUOTE: char = '\'';

/// The text with every single quote doubled.
pub open spec fn escaped(text: Seq<char>) -> Seq<char>
    decreases text.len(),
{
    if text.len() == 0 {
        Seq::empty()
    } else if text.last() == QUOTE {
        escaped(text.drop_last()).push(QUOTE).push(QUOTE)
    } else {
        escaped(text.drop_last()).push(text.last())
    }
}

/// Escaping never shortens a text, and leaves one without quotes as it is.
pub proof fn lemma_escaped_len(text: Seq<char>)
    ensures
        escaped(text).len() >= text.len(),
        (forall|i: int| 0 <= i < text.len() ==> text[i] != QUOTE) ==> escaped(text) == text,
    decreases text.len(),
{
    if text.len() > 0 {
        lemma_escaped_len(text.drop_last());
        if forall|i: int| 0 <= i < text.len() ==> text[i] != QUOTE {
            assert forall|i: int| 0 <= i < text.drop_last().len() implies text.drop_last()[i]
                != QUOTE by {
                assert(text[i] != QUOTE);
            }
            assert(text[text.len() - 1] != QUOTE);
            assert(escaped(text) =~= text);
        }
    }
}

/// Doubles every single quote of `s`, so that the result can stand inside a
/// single-quoted editor string.
pub fn escape_single_quote(s: &str) -> (out: String)
    ensures
        out@ == escaped(s@),
{
    let chars = chars_of(s);
    let mut out = String::new();
    let mut i: usize = 0;
    assert(s@.take(0) =~= Seq::empty());
    while i < chars.len()
        invariant
            chars@ == s@,
            i <= chars@.len(),
            out@ == escaped(s@.take(i as int)),
        decreases chars@.len() - i,
    {
        let c: char = chars[i];
        proof {
            assert(s@.take(i + 1).drop_last() == s@.take(i as int));
            assert(s@.take(i + 1).last() == c);
        }
        if c == QUOTE {
            out.push(QUOTE);
            out.push(QUOTE);
        } else {
            out.push(c);
        }
        i += 1;
    }
    assert(s@.take(i as int) == s@);
    out
}

/// An optional string that can be lent out as an optional slice.
pub trait AsRefStr {
    /// The text inside, if there is one.
    spec fn text(&self) -> Option<Seq<char>>;

    /// The string inside, borrowed.
    fn as_ref_str(&self) -> (r: Option<&str>)
        ensures
            r is Some == self.text() is Some,
            r matches Some(s) ==> Some(s@) == self.text(),
    ;
}

impl AsRefStr for Option<String> {
    open spec fn text(&self) -> Option<Seq<char>> {
        match self {
            Some(s) => Some(s@),
            None => None,
        }
    }

    fn as_ref_str(&self) -> (r: Option<&str>) {
        match self {
            Some(s) => Some(s.as_str()),
            None => None,
        }
    }
}

/// Whether `char::is_whitespace` holds of the character.
pub uninterp spec fn is_whitespace_char(c: char) -> bool;

/// Whether the character is white space, as `char::is_whitespace` says.
pub assume_specification[ char::is_whitespace ](c: char) -> (b: bool)
    ensures
        b == is_whitespace_char(c),
;

/// A set of characters to take off the ends of a text.
#[derive(Clone, Copy, Debug, PartialEq, Eq, Structural)]
pub enum TrimSet {
    /// White space.
    Whitespace,
    /// Carriage return and line feed.
    LineEnds,
}

impl TrimSet {
    /// Whether the character belongs to the set.
    pub open spec fn holds(self, c: char) -> bool {
        match self {
            TrimSet::Whitespace => is_whitespace_char(c),
            TrimSet::LineEnds => c == '\r' || c == '\n',
        }
    }

    /// Whether the character belongs to the set.
    pub fn has(&self, c: char) -> (b: bool)
        ensures
            b == self.holds(c),
    {
        match self {
            TrimSet::Whitespace => c.is_whitespace(),
            TrimSet::LineEnds => c == '\r' || c == '\n',
        }
    }
}

/// The text without its leading characters of the set.
pub open spec fn trim_start_of(text: Seq<char>, set: TrimSet) -> Seq<char>
    decreases text.len(),
{
    if text.len() > 0 && set.holds(text[0]) {
        trim_start_of(text.drop_first(), set)
    } else {
        text
    }
}

/// The text without its trailing characters of the set.
pub open spec fn trim_end_of(text: Seq<char>, set: TrimSet) -> Seq<char>
    decreases text.len(),
{
    if text.len() > 0 && set.holds(text.last()) {
        trim_end_of(text.drop_last(), set)
    } else {
        text
    }
}

/// The text without the characters of the set at either end.
pub open spec fn trimmed(text: Seq<char>, set: TrimSet) -> Seq<char> {
    trim_end_of(trim_start_of(text, set), set)
}

/// The text without white space at either end, and then without line ends
/// at either end.
pub open spec fn stripped(text: Seq<char>) -> Seq<char> {
    trimmed(trimmed(text, TrimSet::Whitespace), TrimSet::LineEnds)
}

/// The part of `s` between its leading and its trailing characters of the set.
pub fn trim<'a>(s: &'a str, set: TrimSet) -> (r: &'a str)
    ensures
        r@ == trimmed(s@, set),
{
    let chars = chars_of(s);
    let n: usize = chars.len();
    let mut i: usize = 0;
    assert(s@.subrange(0, n as int) == s@);
    while i < n && set.has(chars[i])
        invariant
            chars@ == s@,
            n == s@.len(),
            i <= n,
            trim_start_of(s@, set) == trim_start_of(s@.subrange(i as int, n as int), set),
        decreases n - i,
    {
        assert(s@.subrange(i as int, n as int).drop_first() == s@.subrange(i + 1, n as int));
        i += 1;
    }
    assert(trim_start_of(s@, set) == s@.subrange(i as int, n as int));
    let mut j: usize = n;
    while j > i && set.has(chars[j - 1])
        invariant
            chars@ == s@,
            n == s@.len(),
            i <= j <= n,
            trimmed(s@, set) == trim_end_of(s@.subrange(i as int, j as int), set),
        decreases j,
    {
        assert(s@.subrange(i as int, j as int).drop_last() == s@.subrange(i as int, j - 1));
        j -= 1;
    }
    assert(trimmed(s@, set) == s@.subrange(i as int, j as int));
    s.substring_char(i, j)
}

/// Text whose blank ends can be taken off.
pub trait Strip {
    /// The characters of the text.
    spec fn whole(&self) -> Seq<char>;

    /// The text without white space, carriage returns and line feeds at
    /// either end.
    fn strip(&self) -> (r: &str)
        ensures
            r@ == stripped(self.whole()),
    ;
}

impl<'a> Strip for &'a str {
    open spec fn whole(&self) -> Seq<char> {
        (*self)@
    }

    fn strip(&self) -> (r: &str) {
        trim(trim(*self, TrimSet::Whitespace), TrimSet::LineEnds)
    }
}

} // verus!
