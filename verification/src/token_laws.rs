//! What the tokenizer gives for whole texts of common shapes: numbers,
//! strings, escapes and literal words.  The expected tokens are written out
//! here directly, independently of the tokenizer's model.
use vstd::prelude::*;

use crate::laws::lemma_number_text_reads_back;
use crate::number::{is_float_text, is_mantissa, is_exponent, unsigned_part};
use crate::tokenize::{
    hex_end, hex_number, hex_value, is_number_token_text, lex_from, lex_string, lex_token,
    read_escape, read_hex, spec_lex, string_body, LexErrorView, TokenView,
};
use crate::text::utf8_size;

verus! {

/// Every character is an ASCII digit.
pub open spec fn ascii_digits(t: Seq<char>) -> bool {
    forall|k: int| 0 <= k < t.len() ==> '0' <= #[trigger] t[k] && t[k] <= '9'
}

proof fn lemma_number_reads(n: Seq<char>, e: int)
    requires
        n.len() > 0,
        n[0] == '-' || ('0' <= n[0] && n[0] <= '9'),
        forall|k: int|
            0 <= k < n.len() ==> (('0' <= #[trigger] n[k] && n[k] <= '9') || n[k] == '.' || n[k]
                == '-' || n[k] == '+' || n[k] == 'e' || n[k] == 'E'),
        0 <= e <= unsigned_part(n).len(),
        is_mantissa(unsigned_part(n).take(e)),
        is_exponent(unsigned_part(n).skip(e)),
    ensures
        spec_lex(n) == Ok::<Seq<TokenView>, LexErrorView>(seq![TokenView::Number(n)]),
{
    assert(is_float_text(n));
    assert(is_number_token_text(n));
    lemma_number_text_reads_back(n);
}

/// A mantissa `a` or `a.b`, where `a` is one or more digits and `b` any
/// digits.
proof fn lemma_mantissa(a: Seq<char>, b: Seq<char>, with_dot: bool)
    requires
        a.len() > 0,
        ascii_digits(a),
        ascii_digits(b),
    ensures
        with_dot ==> is_mantissa(a + seq!['.'] + b),
        !with_dot ==> is_mantissa(a),
{
    if with_dot {
        let m = a + seq!['.'] + b;
        let d = a.len() as int;
        assert(m[d] == '.');
        assert(m.take(d) =~= a);
        assert(m.skip(d + 1) =~= b);
        assert forall|k: int| 0 <= k < a.len() implies #[trigger] crate::number::is_digit(a[k]) by {
            assert('0' <= a[k] && a[k] <= '9');
        }
        assert forall|k: int| 0 <= k < b.len() implies #[trigger] crate::number::is_digit(b[k]) by {
            assert('0' <= b[k] && b[k] <= '9');
        }
    } else {
        assert forall|k: int| 0 <= k < a.len() implies #[trigger] crate::number::is_digit(a[k]) by {
            assert('0' <= a[k] && a[k] <= '9');
        }
    }
}

/// A run of digits, with or without a fraction and a minus sign, is one
/// number token holding the whole run, whatever its length.
pub proof fn law_digit_runs_are_number_tokens(a: Seq<char>, b: Seq<char>)
    requires
        a.len() > 0,
        ascii_digits(a),
        ascii_digits(b),
    ensures
        spec_lex(a) == Ok::<Seq<TokenView>, LexErrorView>(seq![TokenView::Number(a)]),
        spec_lex(seq!['-'] + a) == Ok::<Seq<TokenView>, LexErrorView>(
            seq![TokenView::Number(seq!['-'] + a)],
        ),
        spec_lex(a + seq!['.'] + b) == Ok::<Seq<TokenView>, LexErrorView>(
            seq![TokenView::Number(a + seq!['.'] + b)],
        ),
        spec_lex(seq!['-'] + a + seq!['.'] + b) == Ok::<Seq<TokenView>, LexErrorView>(
            seq![TokenView::Number(seq!['-'] + a + seq!['.'] + b)],
        ),
{
    lemma_mantissa(a, b, true);
    lemma_mantissa(a, b, false);
    let empty: Seq<char> = Seq::empty();
    // a
    assert(unsigned_part(a) == a);
    assert(a.take(a.len() as int) =~= a);
    assert(a.skip(a.len() as int) =~= empty);
    lemma_number_reads(a, a.len() as int);
    // -a
    let na = seq!['-'] + a;
    assert(unsigned_part(na) =~= a);
    assert forall|k: int| 0 <= k < na.len() implies (('0' <= #[trigger] na[k] && na[k] <= '9')
        || na[k] == '.' || na[k] == '-' || na[k] == '+' || na[k] == 'e' || na[k] == 'E') by {
        if k > 0 {
            assert(na[k] == a[k - 1]);
        }
    }
    lemma_number_reads(na, a.len() as int);
    // a.b
    let m = a + seq!['.'] + b;
    assert(unsigned_part(m) == m);
    assert(m.take(m.len() as int) =~= m);
    assert(m.skip(m.len() as int) =~= empty);
    assert forall|k: int| 0 <= k < m.len() implies (('0' <= #[trigger] m[k] && m[k] <= '9')
        || m[k] == '.' || m[k] == '-' || m[k] == '+' || m[k] == 'e' || m[k] == 'E') by {
        if k < a.len() {
            assert(m[k] == a[k]);
        } else if k > a.len() {
            assert(m[k] == b[k - a.len() - 1]);
        }
    }
    assert(m[0] == a[0]);
    lemma_number_reads(m, m.len() as int);
    // -a.b
    let nm = seq!['-'] + a + seq!['.'] + b;
    assert(nm =~= seq!['-'] + m);
    assert(unsigned_part(nm) =~= m);
    assert forall|k: int| 0 <= k < nm.len() implies (('0' <= #[trigger] nm[k] && nm[k] <= '9')
        || nm[k] == '.' || nm[k] == '-' || nm[k] == '+' || nm[k] == 'e' || nm[k] == 'E') by {
        if k > 0 {
            assert(nm[k] == m[k - 1]);
        }
    }
    lemma_number_reads(nm, m.len() as int);
}

/// A number written `-? digits (. digits*)? ((e|E) (+|-)? digits)?` is one
/// number token holding the whole text, whatever the lengths of its parts.
pub proof fn law_number_texts_are_number_tokens(
    minus: Seq<char>,
    a: Seq<char>,
    frac: Seq<char>,
    exp: Seq<char>,
)
    requires
        minus == Seq::<char>::empty() || minus == seq!['-'],
        a.len() > 0,
        ascii_digits(a),
        frac.len() == 0 || (frac[0] == '.' && ascii_digits(frac.drop_first())),
        exp.len() == 0 || {
            &&& exp.len() >= 2
            &&& (exp[0] == 'e' || exp[0] == 'E')
            &&& {
                let r = exp.drop_first();
                let c = if r[0] == '+' || r[0] == '-' {
                    r.drop_first()
                } else {
                    r
                };
                c.len() > 0 && ascii_digits(c)
            }
        },
    ensures
        spec_lex(minus + a + frac + exp) == Ok::<Seq<TokenView>, LexErrorView>(
            seq![TokenView::Number(minus + a + frac + exp)],
        ),
{
    let m = a + frac;
    let n = minus + a + frac + exp;
    let u = a + frac + exp;
    assert(n =~= minus + u);
    if minus.len() == 0 {
        assert(n =~= u);
        assert(n[0] == a[0]);
    } else {
        assert(n[0] == '-');
        assert(u[0] == a[0]);
    }
    assert(unsigned_part(n) =~= u);
    assert(u.take(m.len() as int) =~= m);
    assert(u.skip(m.len() as int) =~= exp);
    if frac.len() == 0 {
        assert(m =~= a);
        lemma_mantissa(a, frac, false);
    } else {
        let b = frac.drop_first();
        assert(frac =~= seq!['.'] + b);
        assert(m =~= a + seq!['.'] + b);
        lemma_mantissa(a, b, true);
    }
    if exp.len() > 0 {
        let r = exp.drop_first();
        let c = if r[0] == '+' || r[0] == '-' {
            r.drop_first()
        } else {
            r
        };
        assert forall|k: int| 0 <= k < c.len() implies #[trigger] crate::number::is_digit(c[k]) by {
            assert('0' <= c[k] && c[k] <= '9');
        }
    }
    assert(is_exponent(exp));
    assert forall|k: int| 0 <= k < u.len() implies (('0' <= #[trigger] u[k] && u[k] <= '9')
        || u[k] == '.' || u[k] == '-' || u[k] == '+' || u[k] == 'e' || u[k] == 'E') by {
        if k < a.len() {
            assert(u[k] == a[k]);
        } else if k < m.len() {
            let j = k - a.len();
            assert(u[k] == frac[j]);
            if j > 0 {
                assert(frac[j] == frac.drop_first()[j - 1]);
            }
        } else {
            let j = k - m.len();
            assert(u[k] == exp[j]);
            if j >= 1 {
                let r = exp.drop_first();
                assert(exp[j] == r[j - 1]);
                if r[0] == '+' || r[0] == '-' {
                    if j >= 2 {
                        assert(r[j - 1] == r.drop_first()[j - 2]);
                    }
                }
            }
        }
    }
    assert forall|k: int| 0 <= k < n.len() implies (('0' <= #[trigger] n[k] && n[k] <= '9')
        || n[k] == '.' || n[k] == '-' || n[k] == '+' || n[k] == 'e' || n[k] == 'E') by {
        if k < minus.len() {
            assert(n[k] == '-');
        } else {
            assert(n[k] == u[k - minus.len()]);
        }
    }
    lemma_number_reads(n, m.len() as int);
}

// ---------------------------------------------------------------------------
// Strings.
// ---------------------------------------------------------------------------

/// A text with neither a quote nor a backslash: it stands in a string as it
/// is.
pub open spec fn plain_text(t: Seq<char>) -> bool {
    forall|k: int| 0 <= k < t.len() ==> #[trigger] t[k] != '"' && t[k] != '\\'
}

/// The character that a one-character escape `\c` stands for.
pub open spec fn escaped(c: char) -> char {
    if c == 'b' {
        '\u{8}'
    } else if c == 'f' {
        '\u{c}'
    } else if c == 'n' {
        '\n'
    } else if c == 'r' {
        '\r'
    } else if c == 't' {
        '\t'
    } else {
        c
    }
}

/// The characters that may follow a backslash alone.
pub open spec fn is_simple_escape(c: char) -> bool {
    c == '"' || c == '\\' || c == '/' || c == 'b' || c == 'f' || c == 'n' || c == 'r' || c == 't'
}

/// The value of a hexadecimal digit.
pub open spec fn hex_digit(c: char) -> int {
    if '0' <= c && c <= '9' {
        c as int - '0' as int
    } else if 'a' <= c && c <= 'f' {
        c as int - 'a' as int + 10
    } else {
        c as int - 'A' as int + 10
    }
}

pub open spec fn is_hex(c: char) -> bool {
    ('0' <= c && c <= '9') || ('a' <= c && c <= 'f') || ('A' <= c && c <= 'F')
}

/// A string body reads a plain run of characters into the string.
proof fn lemma_plain_run(s: Seq<char>, start: int, t: Seq<char>, acc: Seq<char>)
    requires
        0 <= start,
        start + t.len() <= s.len(),
        plain_text(t),
        forall|k: int| 0 <= k < t.len() ==> #[trigger] s[start + k] == t[k],
    ensures
        string_body(s, start, acc) == string_body(s, start + t.len(), acc + t),
    decreases t.len(),
{
    if t.len() == 0 {
        assert(acc + t =~= acc);
    } else {
        assert(s[start + 0] == t[0]);
        let rest = t.drop_first();
        assert forall|k: int| 0 <= k < rest.len() implies #[trigger] s[start + 1 + k] == rest[k] by {
            assert(s[start + (k + 1)] == t[k + 1]);
        }
        assert forall|k: int| 0 <= k < rest.len() implies #[trigger] rest[k] != '"' && rest[k]
            != '\\' by {
            assert(rest[k] == t[k + 1]);
        }
        lemma_plain_run(s, start + 1, rest, acc.push(t[0]));
        assert(acc.push(t[0]) + rest =~= acc + t);
    }
}

/// A text that is one string, from its opening quote to its end, is that
/// one string token.
proof fn lemma_one_string(s: Seq<char>, content: Seq<char>)
    requires
        s.len() > 0,
        s[0] == '"',
        string_body(s, 1, Seq::empty()) == (
            Ok::<Seq<char>, LexErrorView>(content),
            s.len() as int,
        ),
    ensures
        spec_lex(s) == Ok::<Seq<TokenView>, LexErrorView>(seq![TokenView::String(content)]),
{
    assert(!crate::tokenize::is_whitespace(s[0]));
    assert(crate::tokenize::punctuation(s[0]) is None);
    assert(lex_token(s, 0) == lex_string(s, 0));
    assert(lex_string(s, 0) == (
        Ok::<TokenView, LexErrorView>(TokenView::String(content)),
        s.len() as int,
    ));
    let acc: Seq<TokenView> = Seq::empty();
    assert(acc.push(TokenView::String(content)) =~= seq![TokenView::String(content)]);
    assert(lex_from(s, s.len() as int, seq![TokenView::String(content)]) == Ok::<
        Seq<TokenView>,
        LexErrorView,
    >(seq![TokenView::String(content)]));
}

/// A quoted text without quotes or backslashes is one string token holding
/// the whole text, whatever its length.
pub proof fn law_plain_strings_read_whole(t: Seq<char>)
    requires
        plain_text(t),
    ensures
        spec_lex(seq!['"'] + t + seq!['"']) == Ok::<Seq<TokenView>, LexErrorView>(
            seq![TokenView::String(t)],
        ),
{
    let s = seq!['"'] + t + seq!['"'];
    assert forall|k: int| 0 <= k < t.len() implies #[trigger] s[1 + k] == t[k] by {}
    lemma_plain_run(s, 1, t, Seq::empty());
    assert(s[1 + t.len() as int] == '"');
    assert(Seq::<char>::empty() + t =~= t);
    lemma_one_string(s, t);
}

/// A one-character escape stands for its character, whatever comes before
/// and after it.
pub proof fn law_simple_escapes(t1: Seq<char>, c: char, t2: Seq<char>)
    requires
        plain_text(t1),
        plain_text(t2),
        is_simple_escape(c),
    ensures
        spec_lex(seq!['"'] + t1 + seq!['\\', c] + t2 + seq!['"']) == Ok::<
            Seq<TokenView>,
            LexErrorView,
        >(seq![TokenView::String(t1 + seq![escaped(c)] + t2)]),
{
    let s = seq!['"'] + t1 + seq!['\\', c] + t2 + seq!['"'];
    let p: int = 1 + t1.len() as int;
    assert forall|k: int| 0 <= k < t1.len() implies #[trigger] s[1 + k] == t1[k] by {}
    assert forall|k: int| 0 <= k < t2.len() implies #[trigger] s[p + 2 + k] == t2[k] by {}
    lemma_plain_run(s, 1, t1, Seq::empty());
    assert(Seq::<char>::empty() + t1 =~= t1);
    assert(s[p] == '\\');
    assert(s[p + 1] == c);
    assert(read_escape(s, p + 1) == (Ok::<char, LexErrorView>(escaped(c)), p + 2));
    lemma_plain_run(s, p + 2, t2, t1.push(escaped(c)));
    assert(s[p + 2 + t2.len() as int] == '"');
    assert(t1.push(escaped(c)) + t2 =~= t1 + seq![escaped(c)] + t2);
    lemma_one_string(s, t1 + seq![escaped(c)] + t2);
}

/// `\u` and four hexadecimal digits, in either case, stand for the character
/// with that code point when it is one, whatever comes before and after.
pub proof fn law_hex_escapes(t1: Seq<char>, h: Seq<char>, t2: Seq<char>)
    requires
        plain_text(t1),
        plain_text(t2),
        h.len() == 4,
        forall|k: int| 0 <= k < 4 ==> #[trigger] is_hex(h[k]),
        crate::text::is_scalar_value(
            (4096 * hex_digit(h[0]) + 256 * hex_digit(h[1]) + 16 * hex_digit(h[2]) + hex_digit(
                h[3],
            )) as nat,
        ),
    ensures
        spec_lex(seq!['"'] + t1 + seq!['\\', 'u'] + h + t2 + seq!['"']) == Ok::<
            Seq<TokenView>,
            LexErrorView,
        >(
            seq![
                TokenView::String(
                    t1 + seq![
                        (4096 * hex_digit(h[0]) + 256 * hex_digit(h[1]) + 16 * hex_digit(h[2])
                            + hex_digit(h[3])) as char,
                    ] + t2,
                ),
            ],
        ),
{
    let v = 4096 * hex_digit(h[0]) + 256 * hex_digit(h[1]) + 16 * hex_digit(h[2]) + hex_digit(
        h[3],
    );
    let s = seq!['"'] + t1 + seq!['\\', 'u'] + h + t2 + seq!['"'];
    let p: int = 1 + t1.len() as int;
    assert forall|k: int| 0 <= k < t1.len() implies #[trigger] s[1 + k] == t1[k] by {}
    assert forall|k: int| 0 <= k < t2.len() implies #[trigger] s[p + 6 + k] == t2[k] by {}
    lemma_plain_run(s, 1, t1, Seq::empty());
    assert(Seq::<char>::empty() + t1 =~= t1);
    assert(s[p] == '\\');
    assert(s[p + 1] == 'u');
    assert(s[p + 2] == h[0]);
    assert(s[p + 3] == h[1]);
    assert(s[p + 4] == h[2]);
    assert(s[p + 5] == h[3]);
    assert(is_hex(h[0]) && is_hex(h[1]) && is_hex(h[2]) && is_hex(h[3]));
    reveal_with_fuel(hex_end, 5);
    assert(hex_end(s, p + 2, 0) == p + 6);
    assert(s.subrange(p + 2, p + 6) =~= h);
    reveal_with_fuel(utf8_size, 5);
    assert(h.drop_last().drop_last().drop_last().drop_last().len() == 0);
    assert(utf8_size(h) == 4);
    assert(crate::tokenize::all_hex_digits(h));
    reveal_with_fuel(hex_value, 5);
    assert(h.drop_last().last() == h[2]);
    assert(h.drop_last().drop_last().last() == h[1]);
    assert(h.drop_last().drop_last().drop_last().last() == h[0]);
    assert(hex_value(h) == v);
    assert(hex_number(h) == Some(v as nat));
    assert(read_hex(s, p + 2) == (Ok::<char, LexErrorView>(v as char), p + 6));
    assert(read_escape(s, p + 1) == (Ok::<char, LexErrorView>(v as char), p + 6));
    lemma_plain_run(s, p + 6, t2, t1.push(v as char));
    assert(s[p + 6 + t2.len() as int] == '"');
    assert(t1.push(v as char) + t2 =~= t1 + seq![v as char] + t2);
    lemma_one_string(s, t1 + seq![v as char] + t2);
}

// ---------------------------------------------------------------------------
// Literal words.
// ---------------------------------------------------------------------------

/// The punctuation characters.
pub open spec fn is_punct(c: char) -> bool {
    c == '[' || c == '{' || c == ']' || c == '}' || c == ':' || c == ','
}

/// The token of a punctuation character.
pub open spec fn punct_token(c: char) -> TokenView {
    if c == '[' {
        TokenView::LeftSquareBracket
    } else if c == '{' {
        TokenView::LeftCurlyBracket
    } else if c == ']' {
        TokenView::RightSquareBracket
    } else if c == '}' {
        TokenView::RightCurlyBracket
    } else if c == ':' {
        TokenView::Colon
    } else {
        TokenView::Comma
    }
}

/// The literal words and their tokens.
pub open spec fn is_literal_word(w: Seq<char>) -> bool {
    w == seq!['t', 'r', 'u', 'e'] || w == seq!['f', 'a', 'l', 's', 'e'] || w == seq![
        'n',
        'u',
        'l',
        'l',
    ]
}

pub open spec fn literal_token(w: Seq<char>) -> TokenView {
    if w == seq!['t', 'r', 'u', 'e'] {
        TokenView::True
    } else if w == seq!['f', 'a', 'l', 's', 'e'] {
        TokenView::False
    } else {
        TokenView::Null
    }
}

proof fn lemma_word_run(s: Seq<char>, i: int, n: int)
    requires
        0 <= i,
        0 <= n,
        i + n <= s.len(),
        forall|k: int| 0 <= k < n ==> #[trigger] crate::tokenize::is_ascii_alphanumeric(s[i + k]),
        i + n == s.len() || !crate::tokenize::is_ascii_alphanumeric(s[i + n]),
    ensures
        crate::tokenize::word_end(s, i) == i + n,
    decreases n,
{
    if n > 0 {
        assert(crate::tokenize::is_ascii_alphanumeric(s[i + 0]));
        assert forall|k: int| 0 <= k < n - 1 implies #[trigger] crate::tokenize::is_ascii_alphanumeric(
            s[i + 1 + k],
        ) by {
            assert(crate::tokenize::is_ascii_alphanumeric(s[i + (k + 1)]));
        }
        lemma_word_run(s, i + 1, n - 1);
    }
}

/// A literal word at `i`, not followed by a letter or digit, is its token.
proof fn lemma_literal_at(s: Seq<char>, i: int, w: Seq<char>)
    requires
        is_literal_word(w),
        0 <= i,
        i + w.len() <= s.len(),
        forall|k: int| 0 <= k < w.len() ==> #[trigger] s[i + k] == w[k],
        i + w.len() == s.len() || is_punct(s[i + w.len()]),
    ensures
        !crate::tokenize::is_whitespace(s[i]),
        crate::tokenize::punctuation(s[i]) is None,
        lex_token(s, i) == (Ok::<TokenView, LexErrorView>(literal_token(w)), i + w.len()),
{
    assert(s[i + 0] == w[0]);
    assert forall|k: int| 0 <= k < w.len() implies #[trigger] crate::tokenize::is_ascii_alphanumeric(
        s[i + k],
    ) by {
        assert(s[i + k] == w[k]);
    }
    lemma_word_run(s, i, w.len() as int);
    assert forall|k: int| 0 <= k < w.len() implies #[trigger] s.subrange(i, i + w.len())[k]
        == w[k] by {
        assert(s[i + k] == w[k]);
    }
    assert(s.subrange(i, i + w.len()) =~= w);
}

/// A literal word between two punctuation characters, after one, or alone,
/// is its own token, whatever the punctuation.
pub proof fn law_literal_words(w: Seq<char>, p1: char, p2: char)
    requires
        is_literal_word(w),
        is_punct(p1),
        is_punct(p2),
    ensures
        spec_lex(w) == Ok::<Seq<TokenView>, LexErrorView>(seq![literal_token(w)]),
        spec_lex(w + seq![p2]) == Ok::<Seq<TokenView>, LexErrorView>(
            seq![literal_token(w), punct_token(p2)],
        ),
        spec_lex(seq![p1] + w + seq![p2]) == Ok::<Seq<TokenView>, LexErrorView>(
            seq![punct_token(p1), literal_token(w), punct_token(p2)],
        ),
{
    let n = w.len() as int;
    let e: Seq<TokenView> = Seq::empty();
    let lt = literal_token(w);
    // w alone
    assert forall|k: int| 0 <= k < w.len() implies #[trigger] w[0 + k] == w[k] by {}
    lemma_literal_at(w, 0, w);
    assert(e.push(lt) =~= seq![lt]);
    assert(lex_from(w, n, seq![lt]) == Ok::<Seq<TokenView>, LexErrorView>(seq![lt]));
    // w p2
    let s2 = w + seq![p2];
    assert forall|k: int| 0 <= k < w.len() implies #[trigger] s2[0 + k] == w[k] by {}
    assert(s2[n] == p2);
    lemma_literal_at(s2, 0, w);
    assert(crate::tokenize::punctuation(s2[n]) == Some(punct_token(p2)));
    assert(seq![lt].push(punct_token(p2)) =~= seq![lt, punct_token(p2)]);
    assert(lex_from(s2, n + 1, seq![lt, punct_token(p2)]) == Ok::<Seq<TokenView>, LexErrorView>(
        seq![lt, punct_token(p2)],
    ));
    assert(lex_from(s2, n, seq![lt]) == lex_from(s2, n + 1, seq![lt, punct_token(p2)]));
    // p1 w p2
    let s3 = seq![p1] + w + seq![p2];
    assert forall|k: int| 0 <= k < w.len() implies #[trigger] s3[1 + k] == w[k] by {}
    assert(s3[0] == p1);
    assert(s3[n + 1] == p2);
    lemma_literal_at(s3, 1, w);
    assert(crate::tokenize::punctuation(s3[0]) == Some(punct_token(p1)));
    assert(crate::tokenize::punctuation(s3[n + 1]) == Some(punct_token(p2)));
    let r = seq![punct_token(p1), lt, punct_token(p2)];
    assert(e.push(punct_token(p1)) =~= seq![punct_token(p1)]);
    assert(seq![punct_token(p1)].push(lt) =~= seq![punct_token(p1), lt]);
    assert(seq![punct_token(p1), lt].push(punct_token(p2)) =~= r);
    assert(lex_from(s3, n + 2, r) == Ok::<Seq<TokenView>, LexErrorView>(r));
    assert(lex_from(s3, n + 1, seq![punct_token(p1), lt]) == lex_from(s3, n + 2, r));
    assert(lex_from(s3, 1, seq![punct_token(p1)]) == lex_from(s3, n + 1, seq![punct_token(p1), lt]));
}

// ---------------------------------------------------------------------------
// Texts that are refused.
// ---------------------------------------------------------------------------

/// A run of digits with two dots is refused as a number, naming the run.
pub proof fn law_two_dots_are_no_number(a: Seq<char>, b: Seq<char>, c: Seq<char>)
    requires
        a.len() > 0,
        ascii_digits(a),
        ascii_digits(b),
        ascii_digits(c),
    ensures
        spec_lex(a + seq!['.'] + b + seq!['.'] + c) == Err::<Seq<TokenView>, LexErrorView>(
            LexErrorView::InvalidNumber(a + seq!['.'] + b + seq!['.'] + c),
        ),
{
    let n = a + seq!['.'] + b + seq!['.'] + c;
    let d1 = a.len() as int;
    let d2: int = (a.len() + 1 + b.len()) as int;
    assert(n[d1] == '.');
    assert(n[d2] == '.');
    assert forall|k: int| 0 <= k < n.len() implies crate::number::is_number_char(#[trigger] n[k])
        && n[k] != 'e' && n[k] != 'E' && (n[k] == '.' || ('0' <= n[k] && n[k] <= '9')) by {
        if k < d1 {
            assert(n[k] == a[k]);
        } else if d1 < k < d2 {
            assert(n[k] == b[k - d1 - 1]);
        } else if k > d2 {
            assert(n[k] == c[k - d2 - 1]);
        }
    }
    assert(unsigned_part(n) == n);
    if is_float_text(n) {
        let e = choose|e: int|
            0 <= e <= n.len() && is_mantissa(#[trigger] n.take(e)) && is_exponent(n.skip(e));
        if e < n.len() {
            assert(n.skip(e)[0] == n[e]);
        }
        assert(e == n.len());
        let m = n.take(e);
        assert(m =~= n);
        if m.len() > 0 && crate::number::all_digits(m) {
            assert(crate::number::is_digit(m[d1]));
        } else {
            let d = choose|d: int|
                0 <= d < m.len() && #[trigger] m[d] == '.' && m.len() >= 2
                    && crate::number::all_digits(m.take(d)) && crate::number::all_digits(
                    m.skip(d + 1),
                );
            if d < d2 {
                assert(m.skip(d + 1)[d2 - d - 1] == m[d2]);
                assert(crate::number::is_digit(m.skip(d + 1)[d2 - d - 1]));
            } else {
                assert(m.take(d)[d1] == m[d1]);
                assert(crate::number::is_digit(m.take(d)[d1]));
            }
        }
    }
    assert(!is_float_text(n));
    crate::laws::lemma_number_end_all_pub(n);
    assert(n.subrange(0, n.len() as int) =~= n);
    assert(n[0] == a[0]);
    assert(!crate::tokenize::is_whitespace(n[0]));
    assert(crate::tokenize::punctuation(n[0]) is None);
    assert(lex_token(n, 0) == crate::tokenize::lex_number(n, 0));
}

/// A backslash followed by a character that starts no escape is refused,
/// naming that character.
pub proof fn law_unknown_escapes_are_refused(t1: Seq<char>, c: char, rest: Seq<char>)
    requires
        plain_text(t1),
        !is_simple_escape(c),
        c != 'u',
    ensures
        spec_lex(seq!['"'] + t1 + seq!['\\', c] + rest) == Err::<Seq<TokenView>, LexErrorView>(
            LexErrorView::InvalidEscape(c),
        ),
{
    let s = seq!['"'] + t1 + seq!['\\', c] + rest;
    let p: int = 1 + t1.len() as int;
    assert forall|k: int| 0 <= k < t1.len() implies #[trigger] s[1 + k] == t1[k] by {}
    lemma_plain_run(s, 1, t1, Seq::empty());
    assert(Seq::<char>::empty() + t1 =~= t1);
    assert(s[p] == '\\');
    assert(s[p + 1] == c);
    assert(read_escape(s, p + 1) == (
        Err::<char, LexErrorView>(LexErrorView::InvalidEscape(c)),
        p + 2,
    ));
    assert(string_body(s, p, t1).0 == Err::<Seq<char>, LexErrorView>(
        LexErrorView::InvalidEscape(c),
    ));
    assert(!crate::tokenize::is_whitespace(s[0]));
    assert(crate::tokenize::punctuation(s[0]) is None);
    assert(lex_token(s, 0) == lex_string(s, 0));
}

/// `\u` and four hexadecimal digits naming a surrogate is refused, naming
/// the digits.
pub proof fn law_surrogate_escapes_are_refused(t1: Seq<char>, h: Seq<char>, rest: Seq<char>)
    requires
        plain_text(t1),
        h.len() == 4,
        forall|k: int| 0 <= k < 4 ==> #[trigger] is_hex(h[k]),
        0xD800 <= 4096 * hex_digit(h[0]) + 256 * hex_digit(h[1]) + 16 * hex_digit(h[2])
            + hex_digit(h[3]) <= 0xDFFF,
    ensures
        spec_lex(seq!['"'] + t1 + seq!['\\', 'u'] + h + rest) == Err::<
            Seq<TokenView>,
            LexErrorView,
        >(LexErrorView::InvalidCodePoint(h)),
{
    let v = 4096 * hex_digit(h[0]) + 256 * hex_digit(h[1]) + 16 * hex_digit(h[2]) + hex_digit(
        h[3],
    );
    let s = seq!['"'] + t1 + seq!['\\', 'u'] + h + rest;
    let p: int = 1 + t1.len() as int;
    assert forall|k: int| 0 <= k < t1.len() implies #[trigger] s[1 + k] == t1[k] by {}
    lemma_plain_run(s, 1, t1, Seq::empty());
    assert(Seq::<char>::empty() + t1 =~= t1);
    assert(s[p] == '\\');
    assert(s[p + 1] == 'u');
    assert(s[p + 2] == h[0]);
    assert(s[p + 3] == h[1]);
    assert(s[p + 4] == h[2]);
    assert(s[p + 5] == h[3]);
    assert(is_hex(h[0]) && is_hex(h[1]) && is_hex(h[2]) && is_hex(h[3]));
    reveal_with_fuel(hex_end, 5);
    assert(hex_end(s, p + 2, 0) == p + 6);
    assert(s.subrange(p + 2, p + 6) =~= h);
    reveal_with_fuel(utf8_size, 5);
    assert(h.drop_last().drop_last().drop_last().drop_last().len() == 0);
    assert(utf8_size(h) == 4);
    assert(crate::tokenize::all_hex_digits(h));
    reveal_with_fuel(hex_value, 5);
    assert(h.drop_last().last() == h[2]);
    assert(h.drop_last().drop_last().last() == h[1]);
    assert(h.drop_last().drop_last().drop_last().last() == h[0]);
    assert(hex_value(h) == v);
    assert(hex_number(h) == Some(v as nat));
    assert(read_hex(s, p + 2).0 == Err::<char, LexErrorView>(LexErrorView::InvalidCodePoint(h)));
    assert(string_body(s, p, t1).0 == Err::<Seq<char>, LexErrorView>(
        LexErrorView::InvalidCodePoint(h),
    ));
    assert(!crate::tokenize::is_whitespace(s[0]));
    assert(crate::tokenize::punctuation(s[0]) is None);
    assert(lex_token(s, 0) == lex_string(s, 0));
}

/// A word of ASCII letters other than `true`, `false` and `null` is refused,
/// naming the word.
pub proof fn law_other_words_are_refused(w: Seq<char>)
    requires
        w.len() > 0,
        forall|k: int| 0 <= k < w.len() ==> ('a' <= #[trigger] w[k] && w[k] <= 'z') || ('A' <= w[k]
            && w[k] <= 'Z'),
        !is_literal_word(w),
    ensures
        spec_lex(w) == Err::<Seq<TokenView>, LexErrorView>(LexErrorView::UnexpectedLiteral(w)),
{
    assert forall|k: int| 0 <= k < w.len() implies #[trigger] crate::tokenize::is_ascii_alphanumeric(
        w[0 + k],
    ) by {
        assert(w[0 + k] == w[k]);
    }
    lemma_word_run(w, 0, w.len() as int);
    assert(w.subrange(0, w.len() as int) =~= w);
    assert(!crate::tokenize::is_whitespace(w[0]));
    assert(crate::tokenize::punctuation(w[0]) is None);
}

} // verus!
