//! Building a JSON value from its tokens.
use vstd::prelude::*;

use crate::tokenize::{
    describe, is_number_token_text, lex, number_tokens_ok, result_view, spec_lex, tokens_view,
    LexError, LexErrorView, Token, TokenView,
};
use crate::text::push_char;
use crate::{Error, ErrorView};

verus! {

/// A JSON value.
///
/// An object holds its members as key-value pairs; `==` compares objects as
/// maps from keys to values, so the order of the members does not matter.
/// A number holds its text as written.
#[derive(Debug)]
pub enum Value {
    Object(Vec<(String, Value)>),
    Array(Vec<Value>),
    String(String),
    Number(String),
    Bool(bool),
    Null,
}

/// The mathematical model of a JSON value: an object is a map from keys to
/// values.
pub enum ValueView {
    Object(Map<Seq<char>, ValueView>),
    Array(Seq<ValueView>),
    String(Seq<char>),
    Number(Seq<char>),
    Bool(bool),
    Null,
}

pub open spec fn value_model(v: Value) -> ValueView
    decreases v,
{
    match v {
        Value::Object(entries) => ValueView::Object(entries_model(entries@)),
        Value::Array(items) => ValueView::Array(values_model(items@)),
        Value::String(s) => ValueView::String(s@),
        Value::Number(n) => ValueView::Number(n@),
        Value::Bool(b) => ValueView::Bool(b),
        Value::Null => ValueView::Null,
    }
}

pub open spec fn values_model(s: Seq<Value>) -> Seq<ValueView>
    decreases s,
{
    if s.len() == 0 {
        Seq::empty()
    } else {
        values_model(s.drop_last()).push(value_model(s.last()))
    }
}

/// The members of an object as a map; a later member with the same key
/// would win.
pub open spec fn entries_model(s: Seq<(String, Value)>) -> Map<Seq<char>, ValueView>
    decreases s,
{
    if s.len() == 0 {
        Map::empty()
    } else {
        entries_model(s.drop_last()).insert(s.last().0@, value_model(s.last().1))
    }
}

/// Every object in the value, however deep, holds each key once, and every
/// number's text follows the float grammar (it is the text of a number
/// token).
pub open spec fn value_wf(v: Value) -> bool
    decreases v,
{
    match v {
        Value::Object(entries) => distinct_keys(entries@) && entries_wf(entries@),
        Value::Array(items) => values_wf(items@),
        Value::Number(n) => is_number_token_text(n@),
        _ => true,
    }
}

pub open spec fn values_wf(s: Seq<Value>) -> bool
    decreases s,
{
    s.len() == 0 || (values_wf(s.drop_last()) && value_wf(s.last()))
}

pub open spec fn entries_wf(s: Seq<(String, Value)>) -> bool
    decreases s,
{
    s.len() == 0 || (entries_wf(s.drop_last()) && value_wf(s.last().1))
}

/// No key occurs twice among the members.
pub open spec fn distinct_keys(s: Seq<(String, Value)>) -> bool {
    forall|i: int, j: int| 0 <= i < j < s.len() ==> s[i].0@ != s[j].0@
}

impl View for Value {
    type V = ValueView;

    open spec fn view(&self) -> ValueView {
        value_model(*self)
    }
}

// ---------------------------------------------------------------------------
// The model of the parser.  Each function reads the tokens `ts` from index
// `i` and gives its result with the index just past what it read.
// ---------------------------------------------------------------------------

/// The error for the token at `i`, which does not fit: the text ended there,
/// or the token is shown.
pub open spec fn unexpected_at(ts: Seq<TokenView>, i: int) -> ErrorView {
    if 0 <= i < ts.len() {
        ErrorView::UnexpectedToken(describe(ts[i]))
    } else {
        ErrorView::UnexpectedEOF
    }
}

/// A value from `i`: its first token is read, then the rest of an array or
/// an object.
pub open spec fn value_at(ts: Seq<TokenView>, i: int) -> (Result<ValueView, ErrorView>, int)
    decreases ts.len() - i, 0int,
{
    if !(0 <= i < ts.len()) {
        (Err(ErrorView::UnexpectedEOF), i)
    } else {
        match ts[i] {
            TokenView::Null => (Ok(ValueView::Null), i + 1),
            TokenView::True => (Ok(ValueView::Bool(true)), i + 1),
            TokenView::False => (Ok(ValueView::Bool(false)), i + 1),
            TokenView::Number(n) => (Ok(ValueView::Number(n)), i + 1),
            TokenView::String(s) => (Ok(ValueView::String(s)), i + 1),
            TokenView::LeftSquareBracket => array_at(ts, i + 1),
            TokenView::LeftCurlyBracket => object_at(ts, i + 1),
            _ => (Err(unexpected_at(ts, i)), i + 1),
        }
    }
}

/// An array from `i`, just after its `[`.
pub open spec fn array_at(ts: Seq<TokenView>, i: int) -> (Result<ValueView, ErrorView>, int)
    decreases ts.len() - i, 1int,
{
    if 0 <= i < ts.len() && ts[i] is RightSquareBracket {
        (Ok(ValueView::Array(Seq::empty())), i + 1)
    } else if !(0 <= i <= ts.len()) {
        (Err(ErrorView::UnexpectedEOF), i)
    } else {
        let (r, j) = value_at(ts, i);
        match r {
            Err(e) => (Err(e), j),
            Ok(v) => if i < j <= ts.len() {
                array_rest(ts, j, seq![v])
            } else {
                (Err(ErrorView::UnexpectedEOF), j)
            },
        }
    }
}

/// The rest of an array from `i`, after its items `items`: `]`, or a comma
/// and one more item.
pub open spec fn array_rest(ts: Seq<TokenView>, i: int, items: Seq<ValueView>) -> (
    Result<ValueView, ErrorView>,
    int,
)
    decreases ts.len() - i, 2int,
{
    if !(0 <= i < ts.len()) {
        (Err(ErrorView::UnexpectedEOF), i)
    } else {
        match ts[i] {
            TokenView::RightSquareBracket => (Ok(ValueView::Array(items)), i + 1),
            TokenView::Comma => {
                let (r, j) = value_at(ts, i + 1);
                match r {
                    Err(e) => (Err(e), j),
                    Ok(v) => if i < j <= ts.len() {
                        array_rest(ts, j, items.push(v))
                    } else {
                        (Err(ErrorView::UnexpectedEOF), j)
                    },
                }
            },
            _ => (Err(unexpected_at(ts, i)), i),
        }
    }
}

/// A member of an object from `i`: a string key, a colon, and a value.
pub open spec fn member_at(ts: Seq<TokenView>, i: int) -> (
    Result<(Seq<char>, ValueView), ErrorView>,
    int,
)
    decreases ts.len() - i, 0int,
{
    if !(0 <= i < ts.len()) {
        (Err(ErrorView::UnexpectedEOF), i)
    } else {
        match ts[i] {
            TokenView::String(k) => if !(i + 1 < ts.len()) {
                (Err(ErrorView::UnexpectedEOF), i + 1)
            } else if ts[i + 1] is Colon {
                let (r, j) = value_at(ts, i + 2);
                match r {
                    Ok(v) => (Ok((k, v)), j),
                    Err(e) => (Err(e), j),
                }
            } else {
                (Err(unexpected_at(ts, i + 1)), i + 2)
            },
            _ => (Err(unexpected_at(ts, i)), i + 1),
        }
    }
}

/// An object from `i`, just after its `{`.
pub open spec fn object_at(ts: Seq<TokenView>, i: int) -> (Result<ValueView, ErrorView>, int)
    decreases ts.len() - i, 1int,
{
    if 0 <= i < ts.len() && ts[i] is RightCurlyBracket {
        (Ok(ValueView::Object(Map::empty())), i + 1)
    } else if !(0 <= i <= ts.len()) {
        (Err(ErrorView::UnexpectedEOF), i)
    } else {
        let (r, j) = member_at(ts, i);
        match r {
            Err(e) => (Err(e), j),
            Ok((k, v)) => if i < j <= ts.len() {
                object_rest(ts, j, Map::empty().insert(k, v))
            } else {
                (Err(ErrorView::UnexpectedEOF), j)
            },
        }
    }
}

/// The rest of an object from `i`, after its members `members`: `}`, or a
/// comma and one more member, which replaces a member with the same key.
pub open spec fn object_rest(
    ts: Seq<TokenView>,
    i: int,
    members: Map<Seq<char>, ValueView>,
) -> (Result<ValueView, ErrorView>, int)
    decreases ts.len() - i, 2int,
{
    if !(0 <= i < ts.len()) {
        (Err(ErrorView::UnexpectedEOF), i)
    } else {
        match ts[i] {
            TokenView::RightCurlyBracket => (Ok(ValueView::Object(members)), i + 1),
            TokenView::Comma => {
                let (r, j) = member_at(ts, i + 1);
                match r {
                    Err(e) => (Err(e), j),
                    Ok((k, v)) => if i < j <= ts.len() {
                        object_rest(ts, j, members.insert(k, v))
                    } else {
                        (Err(ErrorView::UnexpectedEOF), j)
                    },
                }
            },
            _ => (Err(unexpected_at(ts, i)), i),
        }
    }
}

/// The value that a whole token sequence denotes: one value, with no token
/// left after it.
pub open spec fn parse_tokens(ts: Seq<TokenView>) -> Result<ValueView, ErrorView> {
    let (r, j) = value_at(ts, 0);
    if j < ts.len() {
        Err(unexpected_at(ts, j))
    } else {
        r
    }
}

/// The error that `parse` reports for a text that cannot be tokenized.
pub open spec fn lex_error_to_error(e: LexErrorView) -> ErrorView {
    match e {
        LexErrorView::InvalidNumber(n) => ErrorView::InvalidLiteral(n),
        LexErrorView::InvalidEscape(c) => ErrorView::InvalidEscapeSequence(seq![c]),
        LexErrorView::UnexpectedEof => ErrorView::UnexpectedEOF,
        LexErrorView::InvalidCodePoint(h) => ErrorView::InvalidCodePoint(h),
        LexErrorView::UnexpectedLiteral(l) => ErrorView::InvalidLiteral(l),
    }
}

/// The value that a text denotes, or why there is none.
pub open spec fn spec_parse(s: Seq<char>) -> Result<ValueView, ErrorView> {
    match spec_lex(s) {
        Err(e) => Err(lex_error_to_error(e)),
        Ok(ts) => parse_tokens(ts),
    }
}

// ---------------------------------------------------------------------------
// The members of an object.
// ---------------------------------------------------------------------------

proof fn lemma_entries_model_push(s: Seq<(String, Value)>, k: String, v: Value)
    ensures
        entries_model(s.push((k, v))) == entries_model(s).insert(k@, value_model(v)),
        entries_wf(s.push((k, v))) == (entries_wf(s) && value_wf(v)),
{
    assert(s.push((k, v)).drop_last() =~= s);
}

proof fn lemma_entries_model_update(s: Seq<(String, Value)>, i: int, k: String, v: Value)
    requires
        distinct_keys(s),
        0 <= i < s.len(),
        s[i].0@ == k@,
    ensures
        entries_model(s.update(i, (k, v))) == entries_model(s).insert(k@, value_model(v)),
        distinct_keys(s.update(i, (k, v))),
        entries_wf(s) && value_wf(v) ==> entries_wf(s.update(i, (k, v))),
    decreases s.len(),
{
    let t = s.update(i, (k, v));
    if i == s.len() - 1 {
        assert(t.drop_last() =~= s.drop_last());
        assert(entries_model(t) =~= entries_model(s).insert(k@, value_model(v)));
    } else {
        let d = s.drop_last();
        assert(t.drop_last() =~= d.update(i, (k, v)));
        assert(distinct_keys(d));
        lemma_entries_model_update(d, i, k, v);
        assert(s.last().0@ != k@);
        assert(entries_model(t) =~= entries_model(s).insert(k@, value_model(v)));
    }
}

/// Adds a member to an object; a member with the same key is replaced in
/// place, otherwise the member goes last.
fn insert_member(members: &mut Vec<(String, Value)>, key: String, value: Value)
    requires
        distinct_keys(old(members)@),
        entries_wf(old(members)@),
        value_wf(value),
    ensures
        distinct_keys(final(members)@),
        entries_wf(final(members)@),
        entries_model(final(members)@) == entries_model(old(members)@).insert(
            key@,
            value_model(value),
        ),
{
    let mut i: usize = 0;
    while i < members.len()
        invariant
            i <= members.len(),
            members@ == old(members)@,
            distinct_keys(members@),
            entries_wf(members@),
            value_wf(value),
            forall|j: int| 0 <= j < i ==> #[trigger] members@[j].0@ != key@,
        decreases members.len() - i,
    {
        if members[i].0 == key {
            proof {
                lemma_entries_model_update(members@, i as int, key, value);
            }
            members.set(i, (key, value));
            return;
        }
        i = i + 1;
    }
    proof {
        lemma_entries_model_push(members@, key, value);
    }
    members.push((key, value));
}

// ---------------------------------------------------------------------------
// The parser.
// ---------------------------------------------------------------------------

impl LexError {
    /// The error that `parse` reports for this tokenizing error.
    pub fn to_error(&self) -> (e: Error)
        ensures
            e@ == lex_error_to_error(self@),
    {
        match self {
            LexError::InvalidNumber(n) => Error::InvalidLiteral(n.clone()),
            LexError::InvalidEscape(c) => {
                let mut s = String::new();
                push_char(&mut s, *c);
                assert(s@ =~= seq![*c]);
                Error::InvalidEscapeSequence(s)
            },
            LexError::UnexpectedEof => Error::UnexpectedEOF,
            LexError::InvalidCodePoint(h) => Error::InvalidCodePoint(h.clone()),
            LexError::UnexpectedLiteral(l) => Error::InvalidLiteral(l.clone()),
        }
    }
}

proof fn lemma_values_model_push(s: Seq<Value>, v: Value)
    ensures
        values_model(s.push(v)) == values_model(s).push(value_model(v)),
        values_wf(s.push(v)) == (values_wf(s) && value_wf(v)),
{
    assert(s.push(v).drop_last() =~= s);
}

/// Reads a value at `pos`.
fn parse_value(tokens: &Vec<Token>, pos: &mut usize) -> (r: Result<Value, Error>)
    requires
        *old(pos) <= tokens.len(),
        number_tokens_ok(tokens_view(tokens@)),
    ensures
        *old(pos) <= *final(pos) <= tokens.len(),
        r is Ok ==> *old(pos) < *final(pos),
        r matches Ok(v) ==> value_wf(v),
        (result_view(r), *final(pos) as int) == value_at(tokens_view(tokens@), *old(pos) as int),
    decreases tokens.len() - *old(pos), 0int,
{
    if *pos >= tokens.len() {
        return Err(Error::UnexpectedEOF);
    }
    let i = *pos;
    *pos = i + 1;
    match &tokens[i] {
        Token::Null => Ok(Value::Null),
        Token::True => Ok(Value::Bool(true)),
        Token::False => Ok(Value::Bool(false)),
        Token::Number(n) => {
            assert(tokens_view(tokens@)[i as int] == tokens@[i as int]@);
            Ok(Value::Number(n.clone()))
        },
        Token::String(s) => Ok(Value::String(s.clone())),
        Token::LeftSquareBracket => parse_array(tokens, pos),
        Token::LeftCurlyBracket => parse_object(tokens, pos),
        t => Err(Error::UnexpectedToken(t.to_string())),
    }
}

/// Reads the rest of an array at `pos`, just after its `[`.
fn parse_array(tokens: &Vec<Token>, pos: &mut usize) -> (r: Result<Value, Error>)
    requires
        *old(pos) <= tokens.len(),
        number_tokens_ok(tokens_view(tokens@)),
    ensures
        *old(pos) <= *final(pos) <= tokens.len(),
        r is Ok ==> *old(pos) < *final(pos),
        r matches Ok(v) ==> value_wf(v),
        (result_view(r), *final(pos) as int) == array_at(tokens_view(tokens@), *old(pos) as int),
    decreases tokens.len() - *old(pos), 1int,
{
    let ghost ts = tokens_view(tokens@);
    let i0 = *pos;
    if i0 < tokens.len() {
        if let Token::RightSquareBracket = &tokens[i0] {
            *pos = i0 + 1;
            return Ok(Value::Array(Vec::new()));
        }
    }
    let first = match parse_value(tokens, pos) {
        Ok(v) => v,
        Err(e) => {
            return Err(e);
        },
    };
    let mut array: Vec<Value> = Vec::new();
    proof {
        lemma_values_model_push(array@, first);
        assert(values_model(array@) =~= Seq::<ValueView>::empty());
    }
    array.push(first);
    loop
        invariant
            ts == tokens_view(tokens@),
            number_tokens_ok(ts),
            i0 == *old(pos),
            i0 < *pos <= tokens.len(),
            values_wf(array@),
            array_rest(ts, *pos as int, values_model(array@)) == array_at(ts, i0 as int),
        decreases tokens.len() - *pos,
    {
        let i = *pos;
        if i >= tokens.len() {
            return Err(Error::UnexpectedEOF);
        }
        match &tokens[i] {
            Token::RightSquareBracket => {
                *pos = i + 1;
                return Ok(Value::Array(array));
            },
            Token::Comma => {
                *pos = i + 1;
                let v = match parse_value(tokens, pos) {
                    Ok(v) => v,
                    Err(e) => {
                        return Err(e);
                    },
                };
                proof {
                    lemma_values_model_push(array@, v);
                }
                array.push(v);
            },
            t => {
                return Err(Error::UnexpectedToken(t.to_string()));
            },
        }
    }
}

/// Reads a member of an object at `pos`: a string key, a colon, a value.
fn parse_key_value_pair(tokens: &Vec<Token>, pos: &mut usize) -> (r: Result<(String, Value), Error>)
    requires
        *old(pos) <= tokens.len(),
        number_tokens_ok(tokens_view(tokens@)),
    ensures
        *old(pos) <= *final(pos) <= tokens.len(),
        r is Ok ==> *old(pos) < *final(pos),
        r matches Ok((k, v)) ==> value_wf(v),
        ({
            let (sr, j) = member_at(tokens_view(tokens@), *old(pos) as int);
            &&& *final(pos) == j
            &&& match r {
                Ok((k, v)) => sr == Ok::<(Seq<char>, ValueView), ErrorView>((k@, v@)),
                Err(e) => sr == Err::<(Seq<char>, ValueView), ErrorView>(e@),
            }
        }),
    decreases tokens.len() - *old(pos), 0int,
{
    let i = *pos;
    if i >= tokens.len() {
        return Err(Error::UnexpectedEOF);
    }
    *pos = i + 1;
    let key = match &tokens[i] {
        Token::String(s) => s.clone(),
        t => {
            return Err(Error::UnexpectedToken(t.to_string()));
        },
    };
    if i + 1 >= tokens.len() {
        return Err(Error::UnexpectedEOF);
    }
    *pos = i + 2;
    match &tokens[i + 1] {
        Token::Colon => {},
        t => {
            return Err(Error::UnexpectedToken(t.to_string()));
        },
    }
    let value = match parse_value(tokens, pos) {
        Ok(v) => v,
        Err(e) => {
            return Err(e);
        },
    };
    Ok((key, value))
}

/// Reads the rest of an object at `pos`, just after its `{`.
fn parse_object(tokens: &Vec<Token>, pos: &mut usize) -> (r: Result<Value, Error>)
    requires
        *old(pos) <= tokens.len(),
        number_tokens_ok(tokens_view(tokens@)),
    ensures
        *old(pos) <= *final(pos) <= tokens.len(),
        r is Ok ==> *old(pos) < *final(pos),
        r matches Ok(v) ==> value_wf(v),
        (result_view(r), *final(pos) as int) == object_at(tokens_view(tokens@), *old(pos) as int),
    decreases tokens.len() - *old(pos), 1int,
{
    let ghost ts = tokens_view(tokens@);
    let i0 = *pos;
    if i0 < tokens.len() {
        if let Token::RightCurlyBracket = &tokens[i0] {
            *pos = i0 + 1;
            let members: Vec<(String, Value)> = Vec::new();
            assert(entries_model(members@) =~= Map::<Seq<char>, ValueView>::empty());
            return Ok(Value::Object(members));
        }
    }
    let (key, value) = match parse_key_value_pair(tokens, pos) {
        Ok(kv) => kv,
        Err(e) => {
            return Err(e);
        },
    };
    let mut members: Vec<(String, Value)> = Vec::new();
    assert(entries_model(members@) =~= Map::<Seq<char>, ValueView>::empty());
    insert_member(&mut members, key, value);
    loop
        invariant
            ts == tokens_view(tokens@),
            number_tokens_ok(ts),
            i0 == *old(pos),
            i0 < *pos <= tokens.len(),
            distinct_keys(members@),
            entries_wf(members@),
            object_rest(ts, *pos as int, entries_model(members@)) == object_at(ts, i0 as int),
        decreases tokens.len() - *pos,
    {
        let i = *pos;
        if i >= tokens.len() {
            return Err(Error::UnexpectedEOF);
        }
        match &tokens[i] {
            Token::RightCurlyBracket => {
                *pos = i + 1;
                return Ok(Value::Object(members));
            },
            Token::Comma => {
                *pos = i + 1;
                let (key, value) = match parse_key_value_pair(tokens, pos) {
                    Ok(kv) => kv,
                    Err(e) => {
                        return Err(e);
                    },
                };
                insert_member(&mut members, key, value);
            },
            t => {
                return Err(Error::UnexpectedToken(t.to_string()));
            },
        }
    }
}

/// Parses a JSON text.
///
/// The text is split into tokens (a tokenizing error is reported as the
/// matching `Error`), one value is read from them, and a token left after it
/// is reported as unexpected.
pub fn parse(source: &str) -> (r: Result<Value, Error>)
    ensures
        result_view(r) == spec_parse(source@),
        r matches Ok(v) ==> value_wf(v),
{
    let tokens = match lex(source) {
        Ok(tokens) => tokens,
        Err(e) => {
            return Err(e.to_error());
        },
    };
    let mut pos: usize = 0;
    let result = parse_value(&tokens, &mut pos);
    if pos < tokens.len() {
        return Err(Error::UnexpectedToken(tokens[pos].to_string()));
    }
    result
}

} // verus!
