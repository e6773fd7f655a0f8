//! Properties that relate several functions of the library.
use vstd::prelude::*;

use crate::number::{is_digit, is_number_char};
use crate::parse::{
    array_at, array_rest, lex_error_to_error, member_at, object_at, object_rest, spec_parse,
    value_at, ValueView,
};
use crate::tokenize::{
    describe, hex_end, is_ascii_alphanumeric, is_number_token_text, is_whitespace,
    lemma_hex_end_bounds, lemma_lex_from_number_tokens, lemma_lex_token_bounds,
    lemma_number_end_run, lemma_read_escape_bounds, lex_from, lex_number, lex_token, number_end,
    punctuation, read_escape, read_hex, spec_lex, string_body, word_end, LexErrorView, TokenView,
};
use crate::ErrorView;

verus! {

// ---------------------------------------------------------------------------
// Where the parser stops.
// ---------------------------------------------------------------------------

pub proof fn lemma_value_at_bounds(ts: Seq<TokenView>, i: int)
    requires
        0 <= i <= ts.len(),
    ensures
        i <= value_at(ts, i).1 <= ts.len(),
        value_at(ts, i).0 is Ok ==> i < value_at(ts, i).1,
    decreases ts.len() - i, 0int,
{
    if i < ts.len() {
        match ts[i] {
            TokenView::LeftSquareBracket => lemma_array_at_bounds(ts, i + 1),
            TokenView::LeftCurlyBracket => lemma_object_at_bounds(ts, i + 1),
            _ => {},
        }
    }
}

pub proof fn lemma_array_at_bounds(ts: Seq<TokenView>, i: int)
    requires
        0 <= i <= ts.len(),
    ensures
        i <= array_at(ts, i).1 <= ts.len(),
        array_at(ts, i).0 is Ok ==> i < array_at(ts, i).1,
    decreases ts.len() - i, 1int,
{
    if !(i < ts.len() && ts[i] is RightSquareBracket) {
        lemma_value_at_bounds(ts, i);
        let (r, j) = value_at(ts, i);
        if r is Ok {
            lemma_array_rest_bounds(ts, j, seq![r->Ok_0]);
        }
    }
}

pub proof fn lemma_array_rest_bounds(ts: Seq<TokenView>, i: int, items: Seq<ValueView>)
    requires
        0 <= i <= ts.len(),
    ensures
        i <= array_rest(ts, i, items).1 <= ts.len(),
        array_rest(ts, i, items).0 is Ok ==> i < array_rest(ts, i, items).1,
    decreases ts.len() - i, 2int,
{
    if i < ts.len() && ts[i] is Comma {
        lemma_value_at_bounds(ts, i + 1);
        let (r, j) = value_at(ts, i + 1);
        if r is Ok {
            lemma_array_rest_bounds(ts, j, items.push(r->Ok_0));
        }
    }
}

pub proof fn lemma_member_at_bounds(ts: Seq<TokenView>, i: int)
    requires
        0 <= i <= ts.len(),
    ensures
        i <= member_at(ts, i).1 <= ts.len(),
        member_at(ts, i).0 is Ok ==> i < member_at(ts, i).1,
    decreases ts.len() - i, 0int,
{
    if i + 2 <= ts.len() {
        lemma_value_at_bounds(ts, i + 2);
    }
}

pub proof fn lemma_object_at_bounds(ts: Seq<TokenView>, i: int)
    requires
        0 <= i <= ts.len(),
    ensures
        i <= object_at(ts, i).1 <= ts.len(),
        object_at(ts, i).0 is Ok ==> i < object_at(ts, i).1,
    decreases ts.len() - i, 1int,
{
    if !(i < ts.len() && ts[i] is RightCurlyBracket) {
        lemma_member_at_bounds(ts, i);
        let (r, j) = member_at(ts, i);
        if r is Ok {
            let (k, v) = r->Ok_0;
            lemma_object_rest_bounds(ts, j, Map::empty().insert(k, v));
        }
    }
}

pub proof fn lemma_object_rest_bounds(
    ts: Seq<TokenView>,
    i: int,
    members: Map<Seq<char>, ValueView>,
)
    requires
        0 <= i <= ts.len(),
    ensures
        i <= object_rest(ts, i, members).1 <= ts.len(),
        object_rest(ts, i, members).0 is Ok ==> i < object_rest(ts, i, members).1,
    decreases ts.len() - i, 2int,
{
    if i < ts.len() && ts[i] is Comma {
        lemma_member_at_bounds(ts, i + 1);
        let (r, j) = member_at(ts, i + 1);
        if r is Ok {
            let (k, v) = r->Ok_0;
            lemma_object_rest_bounds(ts, j, members.insert(k, v));
        }
    }
}

/// A text has a value exactly when it has tokens and one value takes up all
/// of them; a text without tokens is reported with the tokenizing error.
pub proof fn law_parse_reads_one_value_from_all_tokens(s: Seq<char>)
    ensures
        spec_lex(s) matches Err(e) ==> spec_parse(s) == Err::<ValueView, ErrorView>(
            lex_error_to_error(e),
        ),
        spec_parse(s) matches Ok(v) ==> (spec_lex(s) matches Ok(ts) && value_at(ts, 0) == (
            Ok::<ValueView, ErrorView>(v),
            ts.len() as int,
        )),
{
    if let Ok(ts) = spec_lex(s) {
        lemma_value_at_bounds(ts, 0);
    }
}

// ---------------------------------------------------------------------------
// Tokens shown in messages read back as themselves.
// ---------------------------------------------------------------------------

pub proof fn lemma_number_text_reads_back(n: Seq<char>)
    requires
        is_number_token_text(n),
    ensures
        spec_lex(n) == Ok::<Seq<TokenView>, LexErrorView>(seq![TokenView::Number(n)]),
{
    lemma_number_end_all(n, 0);
    assert(n.subrange(0, n.len() as int) =~= n);
    assert(!is_whitespace(n[0]));
    assert(punctuation(n[0]) is None);
    let acc: Seq<TokenView> = Seq::empty();
    assert(acc.push(TokenView::Number(n)) =~= seq![TokenView::Number(n)]);
    assert(lex_number(n, 0) == (
        Ok::<TokenView, LexErrorView>(TokenView::Number(n)),
        n.len() as int,
    ));
    assert(lex_token(n, 0) == lex_number(n, 0));
    assert(lex_from(n, n.len() as int, seq![TokenView::Number(n)]) == Ok::<
        Seq<TokenView>,
        LexErrorView,
    >(seq![TokenView::Number(n)]));
}

/// A text made only of number characters is one run of them.
pub proof fn lemma_number_end_all_pub(n: Seq<char>)
    requires
        forall|k: int| 0 <= k < n.len() ==> #[trigger] is_number_char(n[k]),
    ensures
        number_end(n, 0) == n.len(),
{
    lemma_number_end_all(n, 0);
}

proof fn lemma_number_end_all(n: Seq<char>, i: int)
    requires
        0 <= i <= n.len(),
        forall|k: int| 0 <= k < n.len() ==> #[trigger] is_number_char(n[k]),
    ensures
        number_end(n, i) == n.len(),
    decreases n.len() - i,
{
    if i < n.len() {
        lemma_number_end_all(n, i + 1);
    }
}

proof fn lemma_single_token_reads_back(t: TokenView)
    requires
        !(t is String),
        !(t is Number),
    ensures
        spec_lex(describe(t)) == Ok::<Seq<TokenView>, LexErrorView>(seq![t]),
{
    let d = describe(t);
    let acc: Seq<TokenView> = Seq::empty();
    assert(acc.push(t) =~= seq![t]);
    reveal_with_fuel(word_end, 6);
    assert(lex_from(d, d.len() as int, seq![t]) == Ok::<Seq<TokenView>, LexErrorView>(seq![t]));
    match t {
        TokenView::True => {
            assert(word_end(d, 0) == 4);
            assert(d.subrange(0, 4) =~= d);
            assert(lex_token(d, 0) == (Ok::<TokenView, LexErrorView>(t), 4int));
        },
        TokenView::False => {
            assert(word_end(d, 0) == 5);
            assert(d.subrange(0, 5) =~= d);
            assert(lex_token(d, 0) == (Ok::<TokenView, LexErrorView>(t), 5int));
        },
        TokenView::Null => {
            assert(word_end(d, 0) == 4);
            assert(d.subrange(0, 4) =~= d);
            assert(lex_token(d, 0) == (Ok::<TokenView, LexErrorView>(t), 4int));
        },
        _ => {
            assert(punctuation(d[0]) == Some(t));
        },
    }
}

/// Every token that `tokenize` yields, other than a string, is shown in
/// messages by a text that tokenizes back to that one token.
pub proof fn law_shown_tokens_read_back(s: Seq<char>, k: int)
    requires
        spec_lex(s) is Ok,
        0 <= k < spec_lex(s)->Ok_0.len(),
        !(spec_lex(s)->Ok_0[k] is String),
    ensures
        spec_lex(describe(spec_lex(s)->Ok_0[k])) == Ok::<Seq<TokenView>, LexErrorView>(
            seq![spec_lex(s)->Ok_0[k]],
        ),
{
    let ts = spec_lex(s)->Ok_0;
    lemma_lex_from_number_tokens(s, 0, Seq::empty());
    let t = ts[k];
    if let TokenView::Number(n) = t {
        lemma_number_text_reads_back(n);
    } else {
        lemma_single_token_reads_back(t);
    }
}

// ---------------------------------------------------------------------------
// Reading a text after a prefix reads it as it stands.  Throughout,
// `t == p + s` and `k == p.len()`: index `i` of `s` is index `i + k` of `t`.
// ---------------------------------------------------------------------------

proof fn lemma_number_end_shift(p: Seq<char>, s: Seq<char>, i: int)
    requires
        0 <= i <= s.len(),
    ensures
        number_end(p + s, i + p.len()) == number_end(s, i) + p.len(),
    decreases s.len() - i,
{
    let t = p + s;
    if i < s.len() {
        assert(t[i + p.len()] == s[i]);
        lemma_number_end_shift(p, s, i + 1);
    }
}

proof fn lemma_word_end_shift(p: Seq<char>, s: Seq<char>, i: int)
    requires
        0 <= i <= s.len(),
    ensures
        word_end(p + s, i + p.len()) == word_end(s, i) + p.len(),
    decreases s.len() - i,
{
    let t = p + s;
    if i < s.len() {
        assert(t[i + p.len()] == s[i]);
        lemma_word_end_shift(p, s, i + 1);
    }
}

proof fn lemma_hex_end_shift(p: Seq<char>, s: Seq<char>, i: int, bytes: nat)
    requires
        0 <= i <= s.len(),
    ensures
        hex_end(p + s, i + p.len(), bytes) == hex_end(s, i, bytes) + p.len(),
    decreases s.len() - i,
{
    let t = p + s;
    if i < s.len() {
        assert(t[i + p.len()] == s[i]);
        lemma_hex_end_shift(p, s, i + 1, bytes + crate::text::utf8_len(s[i]));
    }
}

proof fn lemma_subrange_shift(p: Seq<char>, s: Seq<char>, i: int, j: int)
    requires
        0 <= i <= j <= s.len(),
    ensures
        (p + s).subrange(i + p.len(), j + p.len()) == s.subrange(i, j),
{
    assert((p + s).subrange(i + p.len(), j + p.len()) =~= s.subrange(i, j));
}

proof fn lemma_read_escape_shift(p: Seq<char>, s: Seq<char>, i: int)
    requires
        0 <= i <= s.len(),
    ensures
        read_escape(p + s, i + p.len()) == (read_escape(s, i).0, read_escape(s, i).1 + p.len()),
{
    let t = p + s;
    if i < s.len() {
        assert(t[i + p.len()] == s[i]);
        if s[i] == 'u' {
            lemma_hex_end_shift(p, s, i + 1, 0);
            crate::tokenize::lemma_hex_end_bounds(s, i + 1, 0);
            lemma_subrange_shift(p, s, i + 1, hex_end(s, i + 1, 0));
            assert(read_hex(t, i + 1 + p.len()) == (read_hex(s, i + 1).0, read_hex(s, i + 1).1
                + p.len()));
        }
    }
}

proof fn lemma_string_body_shift(p: Seq<char>, s: Seq<char>, i: int, acc: Seq<char>)
    requires
        0 <= i <= s.len(),
    ensures
        string_body(p + s, i + p.len(), acc) == (
            string_body(s, i, acc).0,
            string_body(s, i, acc).1 + p.len(),
        ),
    decreases s.len() - i,
{
    let t = p + s;
    if i < s.len() {
        assert(t[i + p.len()] == s[i]);
        if s[i] == '\\' {
            lemma_read_escape_shift(p, s, i + 1);
            crate::tokenize::lemma_read_escape_bounds(s, i + 1);
            let (r, j) = read_escape(s, i + 1);
            if let Ok(c) = r {
                lemma_string_body_shift(p, s, j, acc.push(c));
            }
        } else if s[i] != '"' {
            lemma_string_body_shift(p, s, i + 1, acc.push(s[i]));
        }
    }
}

proof fn lemma_lex_token_shift(p: Seq<char>, s: Seq<char>, i: int)
    requires
        0 <= i < s.len(),
    ensures
        lex_token(p + s, i + p.len()) == (lex_token(s, i).0, lex_token(s, i).1 + p.len()),
{
    let t = p + s;
    assert(t[i + p.len()] == s[i]);
    let c = s[i];
    if c == '-' || is_digit(c) {
        lemma_number_end_shift(p, s, i);
        lemma_number_end_run(s, i);
        lemma_subrange_shift(p, s, i, number_end(s, i));
    } else if c == '"' {
        lemma_string_body_shift(p, s, i + 1, Seq::empty());
    } else {
        lemma_word_end_shift(p, s, i);
        crate::tokenize::lemma_word_end_bounds(s, i);
        lemma_subrange_shift(p, s, i, word_end(s, i));
    }
}

proof fn lemma_lex_from_shift(p: Seq<char>, s: Seq<char>, i: int, acc: Seq<TokenView>)
    requires
        0 <= i <= s.len(),
    ensures
        lex_from(p + s, i + p.len(), acc) == lex_from(s, i, acc),
    decreases s.len() - i,
{
    let t = p + s;
    if i < s.len() {
        assert(t[i + p.len()] == s[i]);
        if is_whitespace(s[i]) {
            lemma_lex_from_shift(p, s, i + 1, acc);
        } else if punctuation(s[i]) is Some {
            lemma_lex_from_shift(p, s, i + 1, acc.push(punctuation(s[i])->Some_0));
        } else {
            lemma_lex_token_shift(p, s, i);
            crate::tokenize::lemma_lex_token_bounds(s, i);
            let (r, j) = lex_token(s, i);
            if let Ok(tok) = r {
                lemma_lex_from_shift(p, s, j, acc.push(tok));
            }
        }
    }
}

proof fn lemma_lex_from_skips_whitespace(t: Seq<char>, i: int, k: int, acc: Seq<TokenView>)
    requires
        0 <= i <= k <= t.len(),
        forall|m: int| i <= m < k ==> #[trigger] is_whitespace(t[m]),
    ensures
        lex_from(t, i, acc) == lex_from(t, k, acc),
    decreases k - i,
{
    if i < k {
        lemma_lex_from_skips_whitespace(t, i + 1, k, acc);
    }
}

/// Whitespace before a text changes neither its tokens nor its value (nor
/// the error reported for it).
pub proof fn law_leading_whitespace_is_ignored(p: Seq<char>, s: Seq<char>)
    requires
        forall|m: int| 0 <= m < p.len() ==> #[trigger] is_whitespace(p[m]),
    ensures
        spec_lex(p + s) == spec_lex(s),
        spec_parse(p + s) == spec_parse(s),
{
    let t = p + s;
    assert forall|m: int| 0 <= m < p.len() implies #[trigger] is_whitespace(t[m]) by {
        assert(t[m] == p[m]);
    }
    lemma_lex_from_skips_whitespace(t, 0, p.len() as int, Seq::empty());
    lemma_lex_from_shift(p, s, 0, Seq::empty());
}

// ---------------------------------------------------------------------------
// Texts joined by whitespace.
// ---------------------------------------------------------------------------

/// Reading a string body from `i` stops at a closing quote inside the text
/// (and meets no bad escape on the way).
pub open spec fn string_closes(s: Seq<char>, i: int) -> bool
    decreases s.len() - i,
{
    if !(0 <= i < s.len()) {
        false
    } else if s[i] == '"' {
        true
    } else if s[i] == '\\' {
        proof {
            lemma_read_escape_bounds(s, i + 1);
        }
        let (r, j) = read_escape(s, i + 1);
        r is Ok && string_closes(s, j)
    } else {
        string_closes(s, i + 1)
    }
}

/// Every string token read from `i` on ends with its closing quote: the
/// text does not end inside a string.
pub open spec fn strings_closed_from(s: Seq<char>, i: int) -> bool
    decreases s.len() - i,
{
    if !(0 <= i < s.len()) {
        true
    } else if is_whitespace(s[i]) || punctuation(s[i]) is Some {
        strings_closed_from(s, i + 1)
    } else {
        proof {
            lemma_lex_token_bounds(s, i);
        }
        let (r, j) = lex_token(s, i);
        (s[i] == '"' ==> string_closes(s, i + 1)) && (r is Ok ==> strings_closed_from(s, j))
    }
}

/// The text does not end inside a string.
pub open spec fn strings_closed(s: Seq<char>) -> bool {
    strings_closed_from(s, 0)
}

proof fn lemma_number_end_extend(a: Seq<char>, r: Seq<char>, i: int)
    requires
        0 <= i <= a.len(),
        r.len() > 0,
        !is_number_char(r[0]),
    ensures
        number_end(a + r, i) == number_end(a, i),
    decreases a.len() - i,
{
    assert((a + r)[a.len() as int] == r[0]);
    if i < a.len() {
        assert((a + r)[i] == a[i]);
        lemma_number_end_extend(a, r, i + 1);
    }
}

proof fn lemma_word_end_extend(a: Seq<char>, r: Seq<char>, i: int)
    requires
        0 <= i <= a.len(),
        r.len() > 0,
        !is_ascii_alphanumeric(r[0]),
    ensures
        word_end(a + r, i) == word_end(a, i),
    decreases a.len() - i,
{
    assert((a + r)[a.len() as int] == r[0]);
    if i < a.len() {
        assert((a + r)[i] == a[i]);
        lemma_word_end_extend(a, r, i + 1);
    }
}

proof fn lemma_hex_end_extend(a: Seq<char>, r: Seq<char>, i: int, bytes: nat)
    requires
        0 <= i <= a.len(),
        hex_end(a, i, bytes) < a.len(),
    ensures
        hex_end(a + r, i, bytes) == hex_end(a, i, bytes),
    decreases a.len() - i,
{
    if i < a.len() {
        assert((a + r)[i] == a[i]);
        if a[i] != '"' && bytes + crate::text::utf8_len(a[i]) != 4 {
            lemma_hex_end_extend(a, r, i + 1, bytes + crate::text::utf8_len(a[i]));
        }
    }
}

proof fn lemma_subrange_extend(a: Seq<char>, r: Seq<char>, i: int, j: int)
    requires
        0 <= i <= j <= a.len(),
    ensures
        (a + r).subrange(i, j) == a.subrange(i, j),
{
    assert((a + r).subrange(i, j) =~= a.subrange(i, j));
}

proof fn lemma_read_escape_extend(a: Seq<char>, r: Seq<char>, i: int)
    requires
        0 <= i <= a.len(),
        read_escape(a, i).1 < a.len(),
    ensures
        read_escape(a + r, i) == read_escape(a, i),
{
    if i < a.len() {
        assert((a + r)[i] == a[i]);
        if a[i] == 'u' {
            lemma_hex_end_extend(a, r, i + 1, 0);
            lemma_hex_end_bounds(a, i + 1, 0);
            lemma_subrange_extend(a, r, i + 1, hex_end(a, i + 1, 0));
        }
    }
}

proof fn lemma_string_body_extend(a: Seq<char>, r: Seq<char>, i: int, acc: Seq<char>)
    requires
        0 <= i <= a.len(),
        string_closes(a, i),
    ensures
        string_body(a + r, i, acc) == string_body(a, i, acc),
    decreases a.len() - i,
{
    assert((a + r)[i] == a[i]);
    if a[i] == '\\' {
        lemma_read_escape_bounds(a, i + 1);
        let (res, j) = read_escape(a, i + 1);
        assert(res is Ok && string_closes(a, j));
        assert(0 <= j < a.len());
        lemma_read_escape_extend(a, r, i + 1);
        lemma_string_body_extend(a, r, j, acc.push(res->Ok_0));
    } else if a[i] != '"' {
        lemma_string_body_extend(a, r, i + 1, acc.push(a[i]));
    }
}

proof fn lemma_lex_token_extend(a: Seq<char>, r: Seq<char>, i: int)
    requires
        0 <= i < a.len(),
        r.len() > 0,
        is_whitespace(r[0]),
        a[i] == '"' ==> string_closes(a, i + 1),
    ensures
        lex_token(a + r, i) == lex_token(a, i),
{
    assert((a + r)[i] == a[i]);
    let c = a[i];
    if c == '-' || is_digit(c) {
        lemma_number_end_extend(a, r, i);
        lemma_number_end_run(a, i);
        lemma_subrange_extend(a, r, i, number_end(a, i));
    } else if c == '"' {
        lemma_string_body_extend(a, r, i + 1, Seq::empty());
    } else {
        lemma_word_end_extend(a, r, i);
        crate::tokenize::lemma_word_end_bounds(a, i);
        lemma_subrange_extend(a, r, i, word_end(a, i));
    }
}

proof fn lemma_lex_from_extend(
    a: Seq<char>,
    r: Seq<char>,
    i: int,
    acc: Seq<TokenView>,
    ta: Seq<TokenView>,
)
    requires
        0 <= i <= a.len(),
        r.len() > 0,
        is_whitespace(r[0]),
        lex_from(a, i, acc) == Ok::<Seq<TokenView>, LexErrorView>(ta),
        strings_closed_from(a, i),
    ensures
        lex_from(a + r, i, acc) == lex_from(a + r, a.len() as int, ta),
    decreases a.len() - i,
{
    if i < a.len() {
        assert((a + r)[i] == a[i]);
        if is_whitespace(a[i]) {
            lemma_lex_from_extend(a, r, i + 1, acc, ta);
        } else if punctuation(a[i]) is Some {
            lemma_lex_from_extend(a, r, i + 1, acc.push(punctuation(a[i])->Some_0), ta);
        } else {
            lemma_lex_token_extend(a, r, i);
            lemma_lex_token_bounds(a, i);
            let (res, j) = lex_token(a, i);
            lemma_lex_from_extend(a, r, j, acc.push(res->Ok_0), ta);
        }
    }
}

proof fn lemma_lex_from_prefix(s: Seq<char>, i: int, acc: Seq<TokenView>, base: Seq<TokenView>)
    requires
        0 <= i <= s.len(),
    ensures
        lex_from(s, i, acc + base) == match lex_from(s, i, base) {
            Ok(ts) => Ok::<Seq<TokenView>, LexErrorView>(acc + ts),
            Err(e) => Err(e),
        },
    decreases s.len() - i,
{
    if i < s.len() {
        if is_whitespace(s[i]) {
            lemma_lex_from_prefix(s, i + 1, acc, base);
        } else if punctuation(s[i]) is Some {
            let t = punctuation(s[i])->Some_0;
            assert((acc + base).push(t) =~= acc + base.push(t));
            lemma_lex_from_prefix(s, i + 1, acc, base.push(t));
        } else {
            lemma_lex_token_bounds(s, i);
            let (res, j) = lex_token(s, i);
            if let Ok(t) = res {
                assert((acc + base).push(t) =~= acc + base.push(t));
                lemma_lex_from_prefix(s, j, acc, base.push(t));
            }
        }
    }
}

/// Two texts joined by whitespace, the first not ending inside a string,
/// have the tokens of the first followed by those of the second.
pub proof fn law_whitespace_joins_token_lists(a: Seq<char>, w: Seq<char>, b: Seq<char>)
    requires
        w.len() > 0,
        forall|m: int| 0 <= m < w.len() ==> #[trigger] is_whitespace(w[m]),
        spec_lex(a) is Ok,
        spec_lex(b) is Ok,
        strings_closed(a),
    ensures
        spec_lex(a + w + b) == Ok::<Seq<TokenView>, LexErrorView>(
            spec_lex(a)->Ok_0 + spec_lex(b)->Ok_0,
        ),
{
    let ta = spec_lex(a)->Ok_0;
    let tb = spec_lex(b)->Ok_0;
    let r = w + b;
    let t = a + w + b;
    assert(a + r =~= t);
    assert(r[0] == w[0]);
    lemma_lex_from_extend(a, r, 0, Seq::empty(), ta);
    let aw = a + w;
    assert(aw + b =~= t);
    assert forall|m: int| a.len() <= m < aw.len() implies #[trigger] is_whitespace(t[m]) by {
        assert(t[m] == w[m - a.len()]);
    }
    lemma_lex_from_skips_whitespace(t, a.len() as int, aw.len() as int, ta);
    lemma_lex_from_shift(aw, b, 0, ta);
    lemma_lex_from_prefix(b, 0, ta, Seq::empty());
    assert(ta + Seq::<TokenView>::empty() =~= ta);
}

} // verus!
