//! Splitting JSON text into tokens.
use vstd::prelude::*;
use vstd::string::*;

use crate::number::{check_float_text, is_digit, is_float_text, is_number_char};
use crate::text::{
    char_from_u32, char_utf8_len, debug_escaped, debug_string, is_scalar_value, push_char,
    string_from_chars, utf8_len, utf8_size, Cursor,
};

verus! {

/// A token of JSON text.
///
/// A number token holds its text as written; it always denotes a
/// floating-point value (see `crate::number::is_float_text`).  Tokens compare
/// by these texts, so `1` and `1.0` are different number tokens.
#[derive(Debug, PartialEq, Clone)]
pub enum Token {
    LeftSquareBracket,
    LeftCurlyBracket,
    RightSquareBracket,
    RightCurlyBracket,
    Colon,
    Comma,
    String(String),
    Number(String),
    True,
    False,
    Null,
}

/// The mathematical model of a token.
pub enum TokenView {
    LeftSquareBracket,
    LeftCurlyBracket,
    RightSquareBracket,
    RightCurlyBracket,
    Colon,
    Comma,
    String(Seq<char>),
    Number(Seq<char>),
    True,
    False,
    Null,
}

impl View for Token {
    type V = TokenView;

    open spec fn view(&self) -> TokenView {
        match self {
            Token::LeftSquareBracket => TokenView::LeftSquareBracket,
            Token::LeftCurlyBracket => TokenView::LeftCurlyBracket,
            Token::RightSquareBracket => TokenView::RightSquareBracket,
            Token::RightCurlyBracket => TokenView::RightCurlyBracket,
            Token::Colon => TokenView::Colon,
            Token::Comma => TokenView::Comma,
            Token::String(s) => TokenView::String(s@),
            Token::Number(s) => TokenView::Number(s@),
            Token::True => TokenView::True,
            Token::False => TokenView::False,
            Token::Null => TokenView::Null,
        }
    }
}

/// How a token is shown in messages: punctuation and literals as written, a
/// string in its debug form (quoted and escaped), a number as its text.
///
/// A number is shown as written (`2`), not in the debug form of its `f64`
/// value (`2.0`): floating-point values cannot be held in verified code.  The
/// `f64` layer built on this library shows number tokens, and the
/// `UnexpectedToken` errors that name them, in the `f64` form.
pub open spec fn describe(t: TokenView) -> Seq<char> {
    match t {
        TokenView::LeftSquareBracket => seq!['['],
        TokenView::LeftCurlyBracket => seq!['{'],
        TokenView::RightSquareBracket => seq![']'],
        TokenView::RightCurlyBracket => seq!['}'],
        TokenView::Colon => seq![':'],
        TokenView::Comma => seq![','],
        TokenView::String(s) => debug_escaped(s),
        TokenView::Number(n) => n,
        TokenView::True => seq!['t', 'r', 'u', 'e'],
        TokenView::False => seq!['f', 'a', 'l', 's', 'e'],
        TokenView::Null => seq!['n', 'u', 'l', 'l'],
    }
}

impl Token {
    /// How this token is shown in messages (see `describe`).
    pub fn to_string(&self) -> (r: String)
        ensures
            r@ == describe(self@),
    {
        match self {
            Token::LeftSquareBracket => {
                proof {
                    reveal_strlit("[");
                }
                String::from_str("[")
            },
            Token::LeftCurlyBracket => {
                proof {
                    reveal_strlit("{");
                }
                String::from_str("{")
            },
            Token::RightSquareBracket => {
                proof {
                    reveal_strlit("]");
                }
                String::from_str("]")
            },
            Token::RightCurlyBracket => {
                proof {
                    reveal_strlit("}");
                }
                String::from_str("}")
            },
            Token::Colon => {
                proof {
                    reveal_strlit(":");
                }
                String::from_str(":")
            },
            Token::Comma => {
                proof {
                    reveal_strlit(",");
                }
                String::from_str(",")
            },
            Token::String(s) => debug_string(s),
            Token::Number(n) => n.clone(),
            Token::True => {
                proof {
                    reveal_strlit("true");
                }
                String::from_str("true")
            },
            Token::False => {
                proof {
                    reveal_strlit("false");
                }
                String::from_str("false")
            },
            Token::Null => {
                proof {
                    reveal_strlit("null");
                }
                String::from_str("null")
            },
        }
    }
}

/// Why a text could not be split into tokens.
#[derive(Debug, PartialEq, Clone)]
pub enum LexError {
    /// A run of number characters that is not a number.
    InvalidNumber(String),
    /// A backslash followed by a character that starts no escape.
    InvalidEscape(char),
    /// The text ended right after a backslash.
    UnexpectedEof,
    /// The characters after `\u` do not name a character.
    InvalidCodePoint(String),
    /// A word other than `true`, `false` and `null`.
    UnexpectedLiteral(String),
}

/// The mathematical model of a `LexError`.
pub enum LexErrorView {
    InvalidNumber(Seq<char>),
    InvalidEscape(char),
    UnexpectedEof,
    InvalidCodePoint(Seq<char>),
    UnexpectedLiteral(Seq<char>),
}

impl View for LexError {
    type V = LexErrorView;

    open spec fn view(&self) -> LexErrorView {
        match self {
            LexError::InvalidNumber(s) => LexErrorView::InvalidNumber(s@),
            LexError::InvalidEscape(c) => LexErrorView::InvalidEscape(*c),
            LexError::UnexpectedEof => LexErrorView::UnexpectedEof,
            LexError::InvalidCodePoint(s) => LexErrorView::InvalidCodePoint(s@),
            LexError::UnexpectedLiteral(s) => LexErrorView::UnexpectedLiteral(s@),
        }
    }
}

pub open spec fn result_view<T: View, E: View>(r: Result<T, E>) -> Result<T::V, E::V> {
    match r {
        Ok(t) => Ok(t@),
        Err(e) => Err(e@),
    }
}

pub open spec fn tokens_view(v: Seq<Token>) -> Seq<TokenView> {
    v.map_values(|t: Token| t@)
}

// ---------------------------------------------------------------------------
// The model of the tokenizer.  Each function reads the text `s` from index
// `i` and gives its result with the index just past what it read.
// ---------------------------------------------------------------------------

pub open spec fn is_whitespace(c: char) -> bool {
    c == ' ' || c == '\t' || c == '\n' || c == '\r'
}

pub open spec fn is_ascii_alphanumeric(c: char) -> bool {
    ('0' <= c && c <= '9') || ('a' <= c && c <= 'z') || ('A' <= c && c <= 'Z')
}

pub open spec fn is_hex_digit(c: char) -> bool {
    ('0' <= c && c <= '9') || ('a' <= c && c <= 'f') || ('A' <= c && c <= 'F')
}

pub open spec fn hex_digit_value(c: char) -> nat {
    if '0' <= c && c <= '9' {
        (c as int - '0' as int) as nat
    } else if 'a' <= c && c <= 'f' {
        (c as int - 'a' as int + 10) as nat
    } else {
        (c as int - 'A' as int + 10) as nat
    }
}

pub open spec fn all_hex_digits(b: Seq<char>) -> bool {
    forall|k: int| 0 <= k < b.len() ==> #[trigger] is_hex_digit(b[k])
}

/// The value of a text of hexadecimal digits.
pub open spec fn hex_value(t: Seq<char>) -> nat
    decreases t.len(),
{
    if t.len() == 0 {
        0
    } else {
        16 * hex_value(t.drop_last()) + hex_digit_value(t.last())
    }
}

/// What `u32::from_str_radix(t, 16)` gives for a text of at most four
/// characters: an optional `+`, then one or more hexadecimal digits.
pub open spec fn hex_number(t: Seq<char>) -> Option<nat> {
    let b = if t.len() > 0 && t[0] == '+' {
        t.drop_first()
    } else {
        t
    };
    if b.len() > 0 && all_hex_digits(b) {
        Some(hex_value(b))
    } else {
        None
    }
}

/// End of the run of number characters from `i`.
pub open spec fn number_end(s: Seq<char>, i: int) -> int
    decreases s.len() - i,
{
    if 0 <= i < s.len() && is_number_char(s[i]) {
        number_end(s, i + 1)
    } else {
        i
    }
}

/// End of the run of ASCII letters and digits from `i`.
pub open spec fn word_end(s: Seq<char>, i: int) -> int
    decreases s.len() - i,
{
    if 0 <= i < s.len() && is_ascii_alphanumeric(s[i]) {
        word_end(s, i + 1)
    } else {
        i
    }
}

/// End of the characters read after `\u`: characters are taken up to a
/// quote or the end of the text, until they take four bytes in UTF-8
/// (`bytes` counts the bytes taken so far).
pub open spec fn hex_end(s: Seq<char>, i: int, bytes: nat) -> int
    decreases s.len() - i,
{
    if 0 <= i < s.len() && s[i] != '"' {
        if bytes + utf8_len(s[i]) == 4 {
            i + 1
        } else {
            hex_end(s, i + 1, bytes + utf8_len(s[i]))
        }
    } else {
        i
    }
}

/// A number token from `i`, where `s[i]` is `-` or a digit.
pub open spec fn lex_number(s: Seq<char>, i: int) -> (Result<TokenView, LexErrorView>, int) {
    let j = number_end(s, i);
    let t = s.subrange(i, j);
    (
        if is_float_text(t) {
            Ok(TokenView::Number(t))
        } else {
            Err(LexErrorView::InvalidNumber(t))
        },
        j,
    )
}

/// The character named by the hexadecimal digits after `\u`, from `i`.
pub open spec fn read_hex(s: Seq<char>, i: int) -> (Result<char, LexErrorView>, int) {
    let j = hex_end(s, i, 0);
    let t = s.subrange(i, j);
    (
        if utf8_size(t) != 4 {
            Err(LexErrorView::InvalidCodePoint(t))
        } else {
            match hex_number(t) {
                Some(v) => if is_scalar_value(v) {
                    Ok(v as char)
                } else {
                    Err(LexErrorView::InvalidCodePoint(t))
                },
                None => Err(LexErrorView::InvalidCodePoint(t)),
            }
        },
        j,
    )
}

/// The character named by an escape, read from `i`, just after a backslash.
pub open spec fn read_escape(s: Seq<char>, i: int) -> (Result<char, LexErrorView>, int) {
    if !(0 <= i < s.len()) {
        (Err(LexErrorView::UnexpectedEof), i)
    } else {
        let c = s[i];
        if c == '"' {
            (Ok('"'), i + 1)
        } else if c == '\\' {
            (Ok('\\'), i + 1)
        } else if c == '/' {
            (Ok('/'), i + 1)
        } else if c == 'b' {
            (Ok('\u{8}'), i + 1)
        } else if c == 'f' {
            (Ok('\u{c}'), i + 1)
        } else if c == 'n' {
            (Ok('\n'), i + 1)
        } else if c == 'r' {
            (Ok('\r'), i + 1)
        } else if c == 't' {
            (Ok('\t'), i + 1)
        } else if c == 'u' {
            read_hex(s, i + 1)
        } else {
            (Err(LexErrorView::InvalidEscape(c)), i + 1)
        }
    }
}

pub proof fn lemma_hex_end_bounds(s: Seq<char>, i: int, bytes: nat)
    requires
        0 <= i <= s.len(),
    ensures
        i <= hex_end(s, i, bytes) <= s.len(),
    decreases s.len() - i,
{
    if 0 <= i < s.len() && s[i] != '"' && bytes + utf8_len(s[i]) != 4 {
        lemma_hex_end_bounds(s, i + 1, bytes + utf8_len(s[i]));
    }
}

pub proof fn lemma_read_escape_bounds(s: Seq<char>, i: int)
    requires
        0 <= i <= s.len(),
    ensures
        i <= read_escape(s, i).1 <= s.len(),
        i < s.len() ==> i < read_escape(s, i).1,
{
    if i + 1 <= s.len() {
        lemma_hex_end_bounds(s, i + 1, 0);
    }
}

/// The contents of a string, read from `i` up to the closing quote or the
/// end of the text; `acc` holds the characters read so far.
pub open spec fn string_body(s: Seq<char>, i: int, acc: Seq<char>) -> (
    Result<Seq<char>, LexErrorView>,
    int,
)
    decreases s.len() - i,
{
    if !(0 <= i < s.len()) {
        (Ok(acc), i)
    } else if s[i] == '"' {
        (Ok(acc), i + 1)
    } else if s[i] == '\\' {
        proof {
            lemma_read_escape_bounds(s, i + 1);
        }
        let (r, j) = read_escape(s, i + 1);
        match r {
            Ok(c) => string_body(s, j, acc.push(c)),
            Err(e) => (Err(e), j),
        }
    } else {
        string_body(s, i + 1, acc.push(s[i]))
    }
}

pub proof fn lemma_string_body_bounds(s: Seq<char>, i: int, acc: Seq<char>)
    requires
        0 <= i <= s.len(),
    ensures
        i <= string_body(s, i, acc).1 <= s.len(),
    decreases s.len() - i,
{
    if 0 <= i < s.len() && s[i] != '"' {
        if s[i] == '\\' {
            lemma_read_escape_bounds(s, i + 1);
            let (r, j) = read_escape(s, i + 1);
            if r is Ok {
                lemma_string_body_bounds(s, j, acc.push(r->Ok_0));
            }
        } else {
            lemma_string_body_bounds(s, i + 1, acc.push(s[i]));
        }
    }
}

/// A string token from `i`, where `s[i]` is the opening quote.  A string
/// that the text ends inside of is taken as it stands.
pub open spec fn lex_string(s: Seq<char>, i: int) -> (Result<TokenView, LexErrorView>, int) {
    let (r, j) = string_body(s, i + 1, Seq::empty());
    (
        match r {
            Ok(t) => Ok(TokenView::String(t)),
            Err(e) => Err(e),
        },
        j,
    )
}

/// A literal token (`true`, `false` or `null`) from `i`.
pub open spec fn lex_literal(s: Seq<char>, i: int) -> (Result<TokenView, LexErrorView>, int) {
    let j = word_end(s, i);
    let w = s.subrange(i, j);
    (
        if w == seq!['t', 'r', 'u', 'e'] {
            Ok(TokenView::True)
        } else if w == seq!['f', 'a', 'l', 's', 'e'] {
            Ok(TokenView::False)
        } else if w == seq!['n', 'u', 'l', 'l'] {
            Ok(TokenView::Null)
        } else {
            Err(LexErrorView::UnexpectedLiteral(w))
        },
        j,
    )
}

/// The token that a punctuation character stands for.
pub open spec fn punctuation(c: char) -> Option<TokenView> {
    if c == '[' {
        Some(TokenView::LeftSquareBracket)
    } else if c == '{' {
        Some(TokenView::LeftCurlyBracket)
    } else if c == ']' {
        Some(TokenView::RightSquareBracket)
    } else if c == '}' {
        Some(TokenView::RightCurlyBracket)
    } else if c == ':' {
        Some(TokenView::Colon)
    } else if c == ',' {
        Some(TokenView::Comma)
    } else {
        None
    }
}

/// The token that starts at `i`, where `s[i]` is neither whitespace nor
/// punctuation.
pub open spec fn lex_token(s: Seq<char>, i: int) -> (Result<TokenView, LexErrorView>, int) {
    let c = s[i];
    if c == '-' || is_digit(c) {
        lex_number(s, i)
    } else if c == '"' {
        lex_string(s, i)
    } else {
        lex_literal(s, i)
    }
}

pub proof fn lemma_number_end_bounds(s: Seq<char>, i: int)
    requires
        0 <= i <= s.len(),
    ensures
        i <= number_end(s, i) <= s.len(),
        i < s.len() && is_number_char(s[i]) ==> i < number_end(s, i),
    decreases s.len() - i,
{
    if i < s.len() && is_number_char(s[i]) {
        lemma_number_end_bounds(s, i + 1);
    }
}

pub proof fn lemma_word_end_bounds(s: Seq<char>, i: int)
    requires
        0 <= i <= s.len(),
    ensures
        i <= word_end(s, i) <= s.len(),
    decreases s.len() - i,
{
    if i < s.len() && is_ascii_alphanumeric(s[i]) {
        lemma_word_end_bounds(s, i + 1);
    }
}

/// A token read at `i` ends past `i`, and not past the end of the text.
pub proof fn lemma_lex_token_bounds(s: Seq<char>, i: int)
    requires
        0 <= i < s.len(),
    ensures
        lex_token(s, i).0 is Ok ==> i < lex_token(s, i).1,
        i <= lex_token(s, i).1 <= s.len(),
{
    let c = s[i];
    if c == '-' || is_digit(c) {
        lemma_number_end_bounds(s, i);
    } else if c == '"' {
        lemma_string_body_bounds(s, i + 1, Seq::empty());
    } else {
        lemma_word_end_bounds(s, i);
        let j = word_end(s, i);
        if lex_token(s, i).0 is Ok {
            assert(s.subrange(i, j).len() > 0);
        }
    }
}

/// The tokens of `s` from `i` on, after the tokens `acc` read before `i`.
pub open spec fn lex_from(s: Seq<char>, i: int, acc: Seq<TokenView>) -> Result<
    Seq<TokenView>,
    LexErrorView,
>
    decreases s.len() - i,
{
    if !(0 <= i < s.len()) {
        Ok(acc)
    } else if is_whitespace(s[i]) {
        lex_from(s, i + 1, acc)
    } else if punctuation(s[i]) is Some {
        lex_from(s, i + 1, acc.push(punctuation(s[i])->Some_0))
    } else {
        proof {
            lemma_lex_token_bounds(s, i);
        }
        let (r, j) = lex_token(s, i);
        match r {
            Ok(t) => lex_from(s, j, acc.push(t)),
            Err(e) => Err(e),
        }
    }
}

/// The tokens of a text, or why it has none.
pub open spec fn spec_lex(s: Seq<char>) -> Result<Seq<TokenView>, LexErrorView> {
    lex_from(s, 0, Seq::empty())
}

/// The text of a number token as the tokenizer makes it.
pub open spec fn is_number_token_text(n: Seq<char>) -> bool {
    &&& n.len() > 0
    &&& (n[0] == '-' || is_digit(n[0]))
    &&& forall|k: int| 0 <= k < n.len() ==> #[trigger] is_number_char(n[k])
    &&& is_float_text(n)
}

/// Every number token's text is the text of a number token.
pub open spec fn number_tokens_ok(ts: Seq<TokenView>) -> bool {
    forall|k: int|
        0 <= k < ts.len() ==> (#[trigger] ts[k] matches TokenView::Number(n) ==> is_number_token_text(n))
}

pub proof fn lemma_number_end_run(s: Seq<char>, i: int)
    requires
        0 <= i <= s.len(),
    ensures
        i <= number_end(s, i) <= s.len(),
        forall|k: int| i <= k < number_end(s, i) ==> #[trigger] is_number_char(s[k]),
    decreases s.len() - i,
{
    if i < s.len() && is_number_char(s[i]) {
        lemma_number_end_run(s, i + 1);
    }
}

pub proof fn lemma_lex_from_number_tokens(s: Seq<char>, i: int, acc: Seq<TokenView>)
    requires
        0 <= i <= s.len(),
        number_tokens_ok(acc),
    ensures
        lex_from(s, i, acc) matches Ok(ts) ==> number_tokens_ok(ts),
    decreases s.len() - i,
{
    if i < s.len() {
        if is_whitespace(s[i]) {
            lemma_lex_from_number_tokens(s, i + 1, acc);
        } else if punctuation(s[i]) is Some {
            let t = punctuation(s[i])->Some_0;
            assert(number_tokens_ok(acc.push(t))) by {
                assert forall|k: int| 0 <= k < acc.push(t).len() implies (#[trigger] acc.push(
                    t,
                )[k] matches TokenView::Number(n) ==> is_number_token_text(n)) by {
                    if k < acc.len() {
                        assert(acc.push(t)[k] == acc[k]);
                    }
                }
            }
            lemma_lex_from_number_tokens(s, i + 1, acc.push(t));
        } else {
            lemma_lex_token_bounds(s, i);
            let (r, j) = lex_token(s, i);
            if let Ok(t) = r {
                let c = s[i];
                if c == '-' || is_digit(c) {
                    lemma_number_end_run(s, i);
                    let n = s.subrange(i, j);
                    assert forall|k: int| 0 <= k < n.len() implies #[trigger] is_number_char(n[k]) by {
                        assert(n[k] == s[i + k]);
                    }
                    assert(n[0] == c);
                }
                assert(number_tokens_ok(acc.push(t))) by {
                    assert forall|k: int| 0 <= k < acc.push(t).len() implies (#[trigger] acc.push(
                        t,
                    )[k] matches TokenView::Number(n) ==> is_number_token_text(n)) by {
                        if k < acc.len() {
                            assert(acc.push(t)[k] == acc[k]);
                        }
                    }
                }
                lemma_lex_from_number_tokens(s, j, acc.push(t));
            }
        }
    }
}

// ---------------------------------------------------------------------------
// The tokenizer.
// ---------------------------------------------------------------------------

fn is_number_char_exec(c: char) -> (b: bool)
    ensures
        b == is_number_char(c),
{
    c == '-' || c == '+' || ('0' <= c && c <= '9') || c == 'e' || c == 'E' || c == '.'
}

fn is_ascii_alphanumeric_exec(c: char) -> (b: bool)
    ensures
        b == is_ascii_alphanumeric(c),
{
    ('0' <= c && c <= '9') || ('a' <= c && c <= 'z') || ('A' <= c && c <= 'Z')
}

/// Reads a number token; the next character is `-` or a digit.
fn tokenize_number(chars: &mut Cursor) -> (r: Result<Token, LexError>)
    ensures
        final(chars).text() == old(chars).text(),
        (result_view(r), final(chars).pos()) == lex_number(old(chars).text(), old(chars).pos()),
{
    let ghost s = chars.text();
    let ghost i0 = chars.pos();
    let _ = chars.peek();
    let mut number: Vec<char> = Vec::new();
    loop
        invariant
            chars.text() == s,
            0 <= i0 <= chars.pos() <= s.len(),
            number@ == s.subrange(i0, chars.pos()),
            number_end(s, chars.pos()) == number_end(s, i0),
        ensures
            chars.text() == s,
            number@ == s.subrange(i0, chars.pos()),
            chars.pos() == number_end(s, i0),
        decreases s.len() - chars.pos(),
    {
        match chars.peek() {
            Some(ch) => {
                if is_number_char_exec(ch) {
                    number.push(ch);
                    let _ = chars.next();
                    assert(number@ == s.subrange(i0, chars.pos()));
                } else {
                    break;
                }
            },
            None => {
                break;
            },
        }
    }
    let ok = check_float_text(&number);
    let text = string_from_chars(&number);
    if ok {
        Ok(Token::Number(text))
    } else {
        Err(LexError::InvalidNumber(text))
    }
}

/// Whether a text is an optional `+` then hexadecimal digits, and their value.
fn hex_number_exec(t: &Vec<char>) -> (r: Option<u32>)
    requires
        t.len() <= 4,
    ensures
        r matches Some(v) ==> hex_number(t@) == Some(v as nat),
        r is None ==> hex_number(t@) is None,
{
    let start: usize = if t.len() > 0 && t[0] == '+' {
        1
    } else {
        0
    };
    let ghost b = if t@.len() > 0 && t@[0] == '+' {
        t@.drop_first()
    } else {
        t@
    };
    assert(b == t@.skip(start as int));
    if start == t.len() {
        return None;
    }
    let mut value: u32 = 0;
    let mut k: usize = start;
    while k < t.len()
        invariant
            start <= k <= t.len() <= 4,
            b == t@.skip(start as int),
            b == (if t@.len() > 0 && t@[0] == '+' {
                t@.drop_first()
            } else {
                t@
            }),
            forall|m: int| start <= m < k ==> #[trigger] is_hex_digit(t@[m]),
            value == hex_value(t@.subrange(start as int, k as int)),
            value < if k - start == 0 {
                1int
            } else if k - start == 1 {
                16int
            } else if k - start == 2 {
                256int
            } else if k - start == 3 {
                4096int
            } else {
                65536int
            },
        decreases t.len() - k,
    {
        let c = t[k];
        let d: u32 = if '0' <= c && c <= '9' {
            (c as u32) - ('0' as u32)
        } else if 'a' <= c && c <= 'f' {
            (c as u32) - ('a' as u32) + 10
        } else if 'A' <= c && c <= 'F' {
            (c as u32) - ('A' as u32) + 10
        } else {
            proof {
                assert(b[k - start] == c);
                assert(!is_hex_digit(b[k - start]));
                assert(!all_hex_digits(b));
            }
            return None;
        };
        proof {
            let prefix = t@.subrange(start as int, k + 1);
            assert(prefix.drop_last() == t@.subrange(start as int, k as int));
            assert(prefix.last() == c);
        }
        value = value * 16 + d;
        k = k + 1;
    }
    proof {
        assert(t@.subrange(start as int, k as int) == b);
        assert forall|m: int| 0 <= m < b.len() implies #[trigger] is_hex_digit(b[m]) by {
            assert(b[m] == t@[start + m]);
        }
    }
    Some(value)
}

pub proof fn lemma_utf8_size_at_least_len(t: Seq<char>)
    ensures
        utf8_size(t) >= t.len(),
    decreases t.len(),
{
    if t.len() > 0 {
        lemma_utf8_size_at_least_len(t.drop_last());
    }
}

/// Reads the characters after `\u` and gives the character that they name.
///
/// Characters are taken up to a quote (which is left unread) or the end of
/// the text, until they take four bytes in UTF-8; they must then be an
/// optional `+` and hexadecimal digits naming a Unicode scalar value.
pub fn read_hex_digits_char(chars: &mut Cursor) -> (r: Result<char, LexError>)
    ensures
        final(chars).text() == old(chars).text(),
        (result_view(r), final(chars).pos()) == read_hex(old(chars).text(), old(chars).pos()),
{
    let ghost s = chars.text();
    let ghost i0 = chars.pos();
    let _ = chars.peek();
    let mut hex_digits: Vec<char> = Vec::new();
    // bytes taken so far, counted up to 5 (any count above four acts alike)
    let mut bytes: usize = 0;
    let ghost mut real_bytes: nat = 0;
    loop
        invariant_except_break
            real_bytes != 4,
            hex_end(s, chars.pos(), real_bytes) == hex_end(s, i0, 0),
        invariant
            chars.text() == s,
            0 <= i0 <= chars.pos() <= s.len(),
            hex_digits@ == s.subrange(i0, chars.pos()),
            real_bytes == utf8_size(hex_digits@),
            bytes == if real_bytes <= 4 {
                real_bytes
            } else {
                5
            },
        ensures
            chars.text() == s,
            hex_digits@ == s.subrange(i0, chars.pos()),
            real_bytes == utf8_size(hex_digits@),
            bytes == if real_bytes <= 4 {
                real_bytes
            } else {
                5
            },
            chars.pos() == hex_end(s, i0, 0),
        decreases s.len() - chars.pos(),
    {
        match chars.peek() {
            Some(ch) => {
                if ch == '"' {
                    break;
                }
                hex_digits.push(ch);
                let _ = chars.next();
                let n = bytes + char_utf8_len(ch);
                proof {
                    let t = hex_digits@;
                    assert(t.drop_last() == s.subrange(i0, chars.pos() - 1));
                    real_bytes = real_bytes + utf8_len(ch);
                }
                assert(hex_digits@ == s.subrange(i0, chars.pos()));
                if n == 4 {
                    bytes = 4;
                    break;
                }
                bytes = if n > 4 {
                    5
                } else {
                    n
                };
            },
            None => {
                break;
            },
        }
    }
    let text = string_from_chars(&hex_digits);
    if bytes != 4 {
        return Err(LexError::InvalidCodePoint(text));
    }
    proof {
        lemma_utf8_size_at_least_len(hex_digits@);
    }
    match hex_number_exec(&hex_digits) {
        None => Err(LexError::InvalidCodePoint(text)),
        Some(code) => match char_from_u32(code) {
            Some(ch) => Ok(ch),
            None => Err(LexError::InvalidCodePoint(text)),
        },
    }
}

/// Reads the escape after a backslash and gives the character it names.
pub fn read_escaped_char(chars: &mut Cursor) -> (r: Result<char, LexError>)
    ensures
        final(chars).text() == old(chars).text(),
        (result_view(r), final(chars).pos()) == read_escape(old(chars).text(), old(chars).pos()),
{
    match chars.next() {
        Some(ch) => {
            if ch == '"' {
                Ok('"')
            } else if ch == '\\' {
                Ok('\\')
            } else if ch == '/' {
                Ok('/')
            } else if ch == 'b' {
                Ok('\u{8}')
            } else if ch == 'f' {
                Ok('\u{c}')
            } else if ch == 'n' {
                Ok('\n')
            } else if ch == 'r' {
                Ok('\r')
            } else if ch == 't' {
                Ok('\t')
            } else if ch == 'u' {
                read_hex_digits_char(&mut *chars)
            } else {
                Err(LexError::InvalidEscape(ch))
            }
        },
        None => Err(LexError::UnexpectedEof),
    }
}

/// Reads a string token; the next character is the opening quote.
fn tokenize_string(chars: &mut Cursor) -> (r: Result<Token, LexError>)
    requires
        old(chars).spec_peek() == Some('"'),
    ensures
        final(chars).text() == old(chars).text(),
        (result_view(r), final(chars).pos()) == lex_string(old(chars).text(), old(chars).pos()),
{
    let ghost s = chars.text();
    let ghost i0 = chars.pos();
    let _ = chars.next();  // opening quote
    let mut string: Vec<char> = Vec::new();
    loop
        invariant_except_break
            string_body(s, chars.pos(), string@) == string_body(s, i0 + 1, Seq::empty()),
        invariant
            s == old(chars).text(),
            i0 == old(chars).pos(),
            chars.text() == s,
            0 <= chars.pos() <= s.len(),
        ensures
            chars.text() == s,
            (Ok::<Seq<char>, LexErrorView>(string@), chars.pos()) == string_body(
                s,
                i0 + 1,
                Seq::empty(),
            ),
        decreases s.len() - chars.pos(),
    {
        match chars.next() {
            Some(ch) => {
                if ch == '"' {
                    break;
                } else if ch == '\\' {
                    proof {
                        lemma_read_escape_bounds(s, chars.pos());
                    }
                    match read_escaped_char(&mut *chars) {
                        Ok(c) => {
                            string.push(c);
                        },
                        Err(e) => {
                            return Err(e);
                        },
                    }
                } else {
                    string.push(ch);
                }
            },
            None => {
                break;
            },
        }
    }
    Ok(Token::String(string_from_chars(&string)))
}

/// Reads a literal token: the run of ASCII letters and digits at the read
/// position must be `true`, `false` or `null`.
fn tokenize_literal(chars: &mut Cursor) -> (r: Result<Token, LexError>)
    ensures
        final(chars).text() == old(chars).text(),
        (result_view(r), final(chars).pos()) == lex_literal(old(chars).text(), old(chars).pos()),
{
    let ghost s = chars.text();
    let ghost i0 = chars.pos();
    let _ = chars.peek();
    let mut literal: Vec<char> = Vec::new();
    loop
        invariant
            chars.text() == s,
            0 <= i0 <= chars.pos() <= s.len(),
            literal@ == s.subrange(i0, chars.pos()),
            word_end(s, chars.pos()) == word_end(s, i0),
        ensures
            chars.text() == s,
            literal@ == s.subrange(i0, chars.pos()),
            chars.pos() == word_end(s, i0),
        decreases s.len() - chars.pos(),
    {
        match chars.peek() {
            Some(ch) => {
                if is_ascii_alphanumeric_exec(ch) {
                    let _ = chars.next();
                    literal.push(ch);
                    assert(literal@ == s.subrange(i0, chars.pos()));
                } else {
                    break;
                }
            },
            None => {
                break;
            },
        }
    }
    let n = literal.len();
    if n == 4 && literal[0] == 't' && literal[1] == 'r' && literal[2] == 'u' && literal[3] == 'e' {
        assert(literal@ =~= seq!['t', 'r', 'u', 'e']);
        Ok(Token::True)
    } else if n == 5 && literal[0] == 'f' && literal[1] == 'a' && literal[2] == 'l' && literal[3]
        == 's' && literal[4] == 'e' {
        assert(literal@ =~= seq!['f', 'a', 'l', 's', 'e']);
        Ok(Token::False)
    } else if n == 4 && literal[0] == 'n' && literal[1] == 'u' && literal[2] == 'l' && literal[3]
        == 'l' {
        assert(literal@ =~= seq!['n', 'u', 'l', 'l']);
        Ok(Token::Null)
    } else {
        proof {
            if literal@ == seq!['t', 'r', 'u', 'e'] {
                assert(literal@[1] == 'r');
            }
            if literal@ == seq!['f', 'a', 'l', 's', 'e'] {
                assert(literal@[1] == 'a');
            }
            if literal@ == seq!['n', 'u', 'l', 'l'] {
                assert(literal@[1] == 'u');
            }
        }
        Err(LexError::UnexpectedLiteral(string_from_chars(&literal)))
    }
}

pub open spec fn tokens_result_view(r: Result<Vec<Token>, LexError>) -> Result<
    Seq<TokenView>,
    LexErrorView,
> {
    match r {
        Ok(v) => Ok(tokens_view(v@)),
        Err(e) => Err(e@),
    }
}

proof fn lemma_tokens_view_push(v: Seq<Token>, t: Token)
    ensures
        tokens_view(v.push(t)) == tokens_view(v).push(t@),
{
    assert(tokens_view(v.push(t)) =~= tokens_view(v).push(t@));
}

/// Splits a text into tokens, with the reason when it cannot be done.
pub fn lex(source: &str) -> (r: Result<Vec<Token>, LexError>)
    ensures
        tokens_result_view(r) == spec_lex(source@),
        r matches Ok(v) ==> number_tokens_ok(tokens_view(v@)),
{
    let ghost s = source@;
    proof {
        lemma_lex_from_number_tokens(s, 0, Seq::empty());
    }
    let mut chars = Cursor::new(source);
    let mut tokens: Vec<Token> = Vec::new();
    assert(tokens_view(tokens@) =~= Seq::<TokenView>::empty());
    loop
        invariant
            s == source@,
            spec_lex(s) matches Ok(ts) ==> number_tokens_ok(ts),
            chars.text() == s,
            0 <= chars.pos() <= s.len(),
            lex_from(s, chars.pos(), tokens_view(tokens@)) == spec_lex(s),
        decreases s.len() - chars.pos(),
    {
        let ghost i = chars.pos();
        let ghost before = tokens@;
        match chars.peek() {
            None => {
                return Ok(tokens);
            },
            Some(ch) => {
                if ch == ' ' || ch == '\t' || ch == '\n' || ch == '\r' {
                    let _ = chars.next();
                } else if ch == '[' || ch == '{' || ch == ']' || ch == '}' || ch == ':' || ch
                    == ',' {
                    let t = if ch == '[' {
                        Token::LeftSquareBracket
                    } else if ch == '{' {
                        Token::LeftCurlyBracket
                    } else if ch == ']' {
                        Token::RightSquareBracket
                    } else if ch == '}' {
                        Token::RightCurlyBracket
                    } else if ch == ':' {
                        Token::Colon
                    } else {
                        Token::Comma
                    };
                    proof {
                        lemma_tokens_view_push(before, t);
                    }
                    tokens.push(t);
                    let _ = chars.next();
                } else {
                    proof {
                        lemma_lex_token_bounds(s, i);
                    }
                    let r = if ch == '-' || ('0' <= ch && ch <= '9') {
                        tokenize_number(&mut chars)
                    } else if ch == '"' {
                        tokenize_string(&mut chars)
                    } else {
                        tokenize_literal(&mut chars)
                    };
                    match r {
                        Ok(t) => {
                            proof {
                                lemma_tokens_view_push(before, t);
                            }
                            tokens.push(t);
                        },
                        Err(e) => {
                            return Err(e);
                        },
                    }
                }
            },
        }
    }
}

/// What a tokenizing error says.
pub open spec fn lex_message(e: LexErrorView) -> Seq<char> {
    match e {
        LexErrorView::InvalidNumber(n) => "invalid number representation: "@ + n,
        LexErrorView::InvalidEscape(c) => "invalid escape sequence: "@.push(c),
        LexErrorView::UnexpectedEof => "unexpected EOF"@,
        LexErrorView::InvalidCodePoint(h) => "invalid code point: "@ + h,
        LexErrorView::UnexpectedLiteral(l) => "unexpected literal: "@ + l,
    }
}

impl LexError {
    /// What this error says.
    pub fn message(&self) -> (m: String)
        ensures
            m@ == lex_message(self@),
    {
        match self {
            LexError::InvalidNumber(n) => {
                let mut m = String::from_str("invalid number representation: ");
                m.append(n.as_str());
                m
            },
            LexError::InvalidEscape(c) => {
                let mut m = String::from_str("invalid escape sequence: ");
                push_char(&mut m, *c);
                m
            },
            LexError::UnexpectedEof => String::from_str("unexpected EOF"),
            LexError::InvalidCodePoint(h) => {
                let mut m = String::from_str("invalid code point: ");
                m.append(h.as_str());
                m
            },
            LexError::UnexpectedLiteral(l) => {
                let mut m = String::from_str("unexpected literal: ");
                m.append(l.as_str());
                m
            },
        }
    }
}

/// Splits a text into tokens; when it cannot be done, says why.
pub fn tokenize(source: &str) -> (r: Result<Vec<Token>, String>)
    ensures
        match spec_lex(source@) {
            Ok(ts) => r matches Ok(v) && tokens_view(v@) == ts,
            Err(e) => r matches Err(m) && m@ == lex_message(e),
        },
        r matches Ok(v) ==> number_tokens_ok(tokens_view(v@)),
{
    match lex(source) {
        Ok(v) => Ok(v),
        Err(e) => Err(e.message()),
    }
}

} // verus!
