//! Character-level helpers shared by the tokenizer and the parser.
use vstd::prelude::*;

verus! {

/// Appends one character to a string (`String::push`).
///
/// Trusted: the standard library documents that `push` appends the given
/// `char` to the end of the string; nothing else about the string changes.
#[verifier::external_body]
pub(crate) fn push_char(s: &mut String, c: char)
    ensures
        final(s)@ == old(s)@.push(c),
{
    s.push(c);
}

/// The characters of a string slice, in order.
pub fn chars_of(source: &str) -> (v: Vec<char>)
    ensures
        v@ == source@,
{
    let mut v: Vec<char> = Vec::new();
    for c in it: source.chars()
        invariant
            v@ == it.seq().take(it.index() as int),
    {
        v.push(c);
    }
    v
}

/// A string holding exactly the given characters.
pub fn string_from_chars(v: &Vec<char>) -> (s: String)
    ensures
        s@ == v@,
{
    let mut s = String::new();
    let mut i: usize = 0;
    while i < v.len()
        invariant
            i <= v.len(),
            s@ == v@.take(i as int),
        decreases v.len() - i,
    {
        push_char(&mut s, v[i]);
        assert(v@.take(i + 1) == v@.take(i as int).push(v@[i as int]));
        i = i + 1;
    }
    assert(v@.take(v.len() as int) == v@);
    s
}

/// Number of bytes that `c` takes in UTF-8.
pub open spec fn utf8_len(c: char) -> nat {
    let v = c as u32;
    if v < 0x80 {
        1
    } else if v < 0x800 {
        2
    } else if v < 0x10000 {
        3
    } else {
        4
    }
}

/// Number of bytes that a text takes in UTF-8.
pub open spec fn utf8_size(t: Seq<char>) -> nat
    decreases t.len(),
{
    if t.len() == 0 {
        0
    } else {
        utf8_size(t.drop_last()) + utf8_len(t.last())
    }
}

/// Number of bytes that `c` takes in UTF-8.
pub fn char_utf8_len(c: char) -> (n: usize)
    ensures
        n == utf8_len(c),
{
    let v = c as u32;
    if v < 0x80 {
        1
    } else if v < 0x800 {
        2
    } else if v < 0x10000 {
        3
    } else {
        4
    }
}

/// What `format!("{:?}", s)` gives for a string `s`: its text in double
/// quotes, with quotes, backslashes, control characters and characters that
/// do not print escaped.  The escaping follows Unicode tables of the
/// standard library, so it is named here rather than written out.
pub uninterp spec fn debug_escaped(s: Seq<char>) -> Seq<char>;

/// The debug form of a string (`format!("{:?}", s)`).
///
/// Trusted: the result is the standard library's `Debug` rendering of the
/// string, which depends on the string alone; nothing more is claimed of it.
#[verifier::external_body]
pub(crate) fn debug_string(s: &String) -> (r: String)
    ensures
        r@ == debug_escaped(s@),
{
    format!("{:?}", s)
}

/// The code points that are characters: Unicode scalar values.
pub open spec fn is_scalar_value(v: nat) -> bool {
    v <= 0xD7FF || (0xE000 <= v && v <= 0x10FFFF)
}

/// The character with a given code point (`char::from_u32`).
///
/// Trusted: the standard library documents that `char::from_u32` gives
/// `Some` exactly for the Unicode scalar values (at most `0x10FFFF` and not a
/// surrogate, `0xD800..=0xDFFF`), holding the character with that code point,
/// and `None` otherwise.
#[verifier::external_body]
pub(crate) fn char_from_u32(code: u32) -> (r: Option<char>)
    ensures
        r == (if is_scalar_value(code as nat) {
            Some(code as char)
        } else {
            None
        }),
{
    char::from_u32(code)
}

/// A read position in a text, one character at a time.
pub struct Cursor {
    chars: Vec<char>,
    pos: usize,
}

impl Cursor {
    #[verifier::type_invariant]
    spec fn inv(self) -> bool {
        self.pos <= self.chars.len()
    }

    /// The whole text being read.
    pub closed spec fn text(self) -> Seq<char> {
        self.chars@
    }

    /// How many characters have been read.
    pub closed spec fn pos(self) -> int {
        self.pos as int
    }

    /// The character at the read position, if any.
    pub open spec fn spec_peek(self) -> Option<char> {
        if 0 <= self.pos() < self.text().len() {
            Some(self.text()[self.pos()])
        } else {
            None
        }
    }

    /// A cursor at the start of `source`.
    pub fn new(source: &str) -> (c: Cursor)
        ensures
            c.text() == source@,
            c.pos() == 0,
    {
        Cursor { chars: chars_of(source), pos: 0 }
    }

    /// The character at the read position, if any; nothing is read.
    pub fn peek(&self) -> (r: Option<char>)
        ensures
            r == self.spec_peek(),
            0 <= self.pos() <= self.text().len(),
    {
        proof {
            use_type_invariant(self);
        }
        if self.pos < self.chars.len() {
            Some(self.chars[self.pos])
        } else {
            None
        }
    }

    /// Reads the character at the read position, if any.
    pub fn next(&mut self) -> (r: Option<char>)
        ensures
            r == old(self).spec_peek(),
            final(self).text() == old(self).text(),
            final(self).pos() == if r is Some {
                old(self).pos() + 1
            } else {
                old(self).pos()
            },
            0 <= final(self).pos() <= final(self).text().len(),
    {
        proof {
            use_type_invariant(&*self);
        }
        if self.pos < self.chars.len() {
            let c = self.chars[self.pos];
            self.pos = self.pos + 1;
            Some(c)
        } else {
            None
        }
    }
}

} // verus!
