//! The grammar of JSON values over tokens, and how the parser relates to it.
//!
//! A `Syntax` tree is a derivation in the grammar
//!
//! ```text
//! V ::= Null | True | False | Number | String
//!     | '[' (V (',' V)*)? ']'
//!     | '{' (String ':' V (',' String ':' V)*)? '}'
//! ```
//!
//! `syntax_tokens` gives the tokens it derives and `syntax_model` the value it
//! stands for; an object's members are taken in order, a later member
//! replacing an earlier one with the same key.
use vstd::prelude::*;

use crate::parse::{
    array_at, array_rest, member_at, object_at, object_rest, parse_tokens, spec_parse, value_at,
    ValueView,
};
use crate::tokenize::{spec_lex, LexErrorView, TokenView};
use crate::laws::{
    lemma_array_at_bounds, lemma_array_rest_bounds, lemma_member_at_bounds,
    lemma_object_at_bounds, lemma_object_rest_bounds, lemma_value_at_bounds,
};
use crate::ErrorView;

verus! {

/// A derivation of a value in the grammar.
pub enum Syntax {
    /// `Null`, `True`, `False`, a number or a string.
    Scalar(TokenView),
    /// `[` items separated by commas `]`
    Array(Seq<Syntax>),
    /// `{` members `key : value` separated by commas `}`
    Object(Seq<(Seq<char>, Syntax)>),
}

pub open spec fn is_scalar_token(t: TokenView) -> bool {
    t is Null || t is True || t is False || t is Number || t is String
}

/// Every leaf of the derivation is a scalar token.
pub open spec fn syntax_wf(t: Syntax) -> bool
    decreases t,
{
    match t {
        Syntax::Scalar(tok) => is_scalar_token(tok),
        Syntax::Array(items) => items_wf(items),
        Syntax::Object(members) => members_wf(members),
    }
}

pub open spec fn items_wf(items: Seq<Syntax>) -> bool
    decreases items,
{
    items.len() == 0 || (syntax_wf(items[0]) && items_wf(items.drop_first()))
}

pub open spec fn members_wf(members: Seq<(Seq<char>, Syntax)>) -> bool
    decreases members,
{
    members.len() == 0 || (syntax_wf(members[0].1) && members_wf(members.drop_first()))
}

/// The tokens that a derivation derives.
pub open spec fn syntax_tokens(t: Syntax) -> Seq<TokenView>
    decreases t,
{
    match t {
        Syntax::Scalar(tok) => seq![tok],
        Syntax::Array(items) => seq![TokenView::LeftSquareBracket] + items_tokens(items) + seq![
            TokenView::RightSquareBracket,
        ],
        Syntax::Object(members) => seq![TokenView::LeftCurlyBracket] + members_tokens(members)
            + seq![TokenView::RightCurlyBracket],
    }
}

/// Items separated by commas.
pub open spec fn items_tokens(items: Seq<Syntax>) -> Seq<TokenView>
    decreases items,
{
    if items.len() == 0 {
        Seq::empty()
    } else {
        syntax_tokens(items[0]) + more_items_tokens(items.drop_first())
    }
}

/// Items, each after a comma.
pub open spec fn more_items_tokens(items: Seq<Syntax>) -> Seq<TokenView>
    decreases items,
{
    if items.len() == 0 {
        Seq::empty()
    } else {
        seq![TokenView::Comma] + syntax_tokens(items[0]) + more_items_tokens(items.drop_first())
    }
}

/// `key : value`
pub open spec fn member_tokens(m: (Seq<char>, Syntax)) -> Seq<TokenView>
    decreases m,
{
    seq![TokenView::String(m.0), TokenView::Colon] + syntax_tokens(m.1)
}

/// Members separated by commas.
pub open spec fn members_tokens(members: Seq<(Seq<char>, Syntax)>) -> Seq<TokenView>
    decreases members,
{
    if members.len() == 0 {
        Seq::empty()
    } else {
        member_tokens(members[0]) + more_members_tokens(members.drop_first())
    }
}

/// Members, each after a comma.
pub open spec fn more_members_tokens(members: Seq<(Seq<char>, Syntax)>) -> Seq<TokenView>
    decreases members,
{
    if members.len() == 0 {
        Seq::empty()
    } else {
        seq![TokenView::Comma] + member_tokens(members[0]) + more_members_tokens(
            members.drop_first(),
        )
    }
}

/// The value of a scalar token.
pub open spec fn scalar_model(t: TokenView) -> ValueView {
    match t {
        TokenView::True => ValueView::Bool(true),
        TokenView::False => ValueView::Bool(false),
        TokenView::Number(n) => ValueView::Number(n),
        TokenView::String(s) => ValueView::String(s),
        _ => ValueView::Null,
    }
}

/// The value that a derivation stands for.
pub open spec fn syntax_model(t: Syntax) -> ValueView
    decreases t,
{
    match t {
        Syntax::Scalar(tok) => scalar_model(tok),
        Syntax::Array(items) => ValueView::Array(items_model(items)),
        Syntax::Object(members) => ValueView::Object(members_model(members, Map::empty())),
    }
}

pub open spec fn items_model(items: Seq<Syntax>) -> Seq<ValueView>
    decreases items,
{
    if items.len() == 0 {
        Seq::empty()
    } else {
        seq![syntax_model(items[0])] + items_model(items.drop_first())
    }
}

/// The members added in order to `acc`, a later one replacing an earlier one
/// with the same key.
pub open spec fn members_model(
    members: Seq<(Seq<char>, Syntax)>,
    acc: Map<Seq<char>, ValueView>,
) -> Map<Seq<char>, ValueView>
    decreases members,
{
    if members.len() == 0 {
        acc
    } else {
        members_model(
            members.drop_first(),
            acc.insert(members[0].0, syntax_model(members[0].1)),
        )
    }
}

// ---------------------------------------------------------------------------
// The parser reads every derivation.
// ---------------------------------------------------------------------------

/// A token range made of two parts is made of each part.
proof fn lemma_split(ts: Seq<TokenView>, i: int, a: Seq<TokenView>, b: Seq<TokenView>)
    requires
        0 <= i,
        i + a.len() + b.len() <= ts.len(),
        ts.subrange(i, i + a.len() + b.len()) == a + b,
    ensures
        ts.subrange(i, i + a.len()) == a,
        ts.subrange(i + a.len(), i + a.len() + b.len()) == b,
        forall|k: int| 0 <= k < a.len() ==> #[trigger] ts[i + k] == a[k],
        forall|k: int| 0 <= k < b.len() ==> #[trigger] ts[i + a.len() + k] == b[k],
{
    let sub = ts.subrange(i, i + a.len() + b.len());
    assert forall|k: int| 0 <= k < a.len() implies #[trigger] ts[i + k] == a[k] by {
        assert(sub[k] == ts[i + k]);
        assert((a + b)[k] == a[k]);
    }
    assert forall|k: int| 0 <= k < b.len() implies #[trigger] ts[i + a.len() + k] == b[k] by {
        assert(sub[a.len() + k] == ts[i + a.len() + k]);
        assert((a + b)[a.len() + k] == b[k]);
    }
    assert(ts.subrange(i, i + a.len()) =~= a);
    assert forall|k: int| 0 <= k < b.len() implies #[trigger] ts.subrange(
        i + a.len(),
        i + a.len() + b.len(),
    )[k] == b[k] by {
        assert(ts[i + a.len() + k] == b[k]);
    }
    assert(ts.subrange(i + a.len(), i + a.len() + b.len()) =~= b);
}

/// A derivation derives at least one token, and its first token opens a
/// value.
proof fn lemma_first_token(t: Syntax)
    requires
        syntax_wf(t),
    ensures
        syntax_tokens(t).len() > 0,
        is_scalar_token(syntax_tokens(t)[0]) || syntax_tokens(t)[0] is LeftSquareBracket
            || syntax_tokens(t)[0] is LeftCurlyBracket,
{
}

proof fn lemma_scalar_reads(ts: Seq<TokenView>, i: int, tok: TokenView)
    requires
        is_scalar_token(tok),
        0 <= i < ts.len(),
        ts[i] == tok,
    ensures
        value_at(ts, i).0 == Ok::<ValueView, ErrorView>(scalar_model(tok)),
        value_at(ts, i).1 == i + 1,
{
}

proof fn lemma_value_reads(ts: Seq<TokenView>, i: int, t: Syntax)
    requires
        syntax_wf(t),
        0 <= i,
        i + syntax_tokens(t).len() <= ts.len(),
        ts.subrange(i, i + syntax_tokens(t).len()) == syntax_tokens(t),
    ensures
        value_at(ts, i) == (
            Ok::<ValueView, ErrorView>(syntax_model(t)),
            i + syntax_tokens(t).len(),
        ),
    decreases t,
{
    match t {
        Syntax::Scalar(tok) => {
            assert(ts.subrange(i, i + 1)[0] == ts[i]);
            lemma_scalar_reads(ts, i, tok);
            assert(seq![tok][0] == tok);
        },
        Syntax::Array(items) => {
            let open = seq![TokenView::LeftSquareBracket];
            let u = items_tokens(items) + seq![TokenView::RightSquareBracket];
            assert(syntax_tokens(t) =~= open + u);
            lemma_split(ts, i, open, u);
            assert(ts[i + 0] == open[0]);
            lemma_array_reads(ts, i + 1, items);
        },
        Syntax::Object(members) => {
            let open = seq![TokenView::LeftCurlyBracket];
            let u = members_tokens(members) + seq![TokenView::RightCurlyBracket];
            assert(syntax_tokens(t) =~= open + u);
            lemma_split(ts, i, open, u);
            assert(ts[i + 0] == open[0]);
            lemma_object_reads(ts, i + 1, members);
        },
    }
}

proof fn lemma_array_reads(ts: Seq<TokenView>, i: int, items: Seq<Syntax>)
    requires
        items_wf(items),
        0 <= i,
        i + items_tokens(items).len() + 1 <= ts.len(),
        ts.subrange(i, i + items_tokens(items).len() + 1) == items_tokens(items) + seq![
            TokenView::RightSquareBracket,
        ],
    ensures
        array_at(ts, i) == (
            Ok::<ValueView, ErrorView>(ValueView::Array(items_model(items))),
            i + items_tokens(items).len() + 1,
        ),
    decreases items,
{
    let close = seq![TokenView::RightSquareBracket];
    lemma_split(ts, i, items_tokens(items), close);
    if items.len() == 0 {
        assert(ts[i + 0] == close[0]);
    } else {
        let t0 = items[0];
        let rest = items.drop_first();
        let a = syntax_tokens(t0);
        let b = more_items_tokens(rest) + close;
        assert(items_tokens(items) + close =~= a + b);
        lemma_split(ts, i, a, b);
        lemma_first_token(t0);
        assert(ts[i + 0] == a[0]);
        lemma_value_reads(ts, i, t0);
        lemma_more_items_reads(ts, i + a.len(), rest, seq![syntax_model(t0)]);
        assert(seq![syntax_model(t0)] + items_model(rest) =~= items_model(items));
    }
}

proof fn lemma_more_items_reads(
    ts: Seq<TokenView>,
    i: int,
    items: Seq<Syntax>,
    acc: Seq<ValueView>,
)
    requires
        items_wf(items),
        0 <= i,
        i + more_items_tokens(items).len() + 1 <= ts.len(),
        ts.subrange(i, i + more_items_tokens(items).len() + 1) == more_items_tokens(items) + seq![
            TokenView::RightSquareBracket,
        ],
    ensures
        array_rest(ts, i, acc) == (
            Ok::<ValueView, ErrorView>(ValueView::Array(acc + items_model(items))),
            i + more_items_tokens(items).len() + 1,
        ),
    decreases items,
{
    let close = seq![TokenView::RightSquareBracket];
    lemma_split(ts, i, more_items_tokens(items), close);
    if items.len() == 0 {
        assert(ts[i + 0] == close[0]);
        assert(acc + items_model(items) =~= acc);
    } else {
        let t0 = items[0];
        let rest = items.drop_first();
        let comma = seq![TokenView::Comma];
        let a = syntax_tokens(t0);
        let b = more_items_tokens(rest) + close;
        assert(more_items_tokens(items) + close =~= comma + (a + b));
        lemma_split(ts, i, comma, a + b);
        lemma_split(ts, i + 1, a, b);
        assert(ts[i + 0] == comma[0]);
        lemma_value_reads(ts, i + 1, t0);
        lemma_more_items_reads(ts, i + 1 + a.len(), rest, acc.push(syntax_model(t0)));
        assert(acc.push(syntax_model(t0)) + items_model(rest) =~= acc + items_model(items));
    }
}

proof fn lemma_member_reads(ts: Seq<TokenView>, i: int, m: (Seq<char>, Syntax))
    requires
        syntax_wf(m.1),
        0 <= i,
        i + member_tokens(m).len() <= ts.len(),
        ts.subrange(i, i + member_tokens(m).len()) == member_tokens(m),
    ensures
        member_at(ts, i) == (
            Ok::<(Seq<char>, ValueView), ErrorView>((m.0, syntax_model(m.1))),
            i + member_tokens(m).len(),
        ),
    decreases m,
{
    let head = seq![TokenView::String(m.0), TokenView::Colon];
    lemma_split(ts, i, head, syntax_tokens(m.1));
    assert(ts[i + 0] == head[0]);
    assert(ts[i + 1] == head[1]);
    lemma_value_reads(ts, i + 2, m.1);
}

proof fn lemma_object_reads(ts: Seq<TokenView>, i: int, members: Seq<(Seq<char>, Syntax)>)
    requires
        members_wf(members),
        0 <= i,
        i + members_tokens(members).len() + 1 <= ts.len(),
        ts.subrange(i, i + members_tokens(members).len() + 1) == members_tokens(members) + seq![
            TokenView::RightCurlyBracket,
        ],
    ensures
        object_at(ts, i) == (
            Ok::<ValueView, ErrorView>(ValueView::Object(members_model(members, Map::empty()))),
            i + members_tokens(members).len() + 1,
        ),
    decreases members,
{
    let close = seq![TokenView::RightCurlyBracket];
    lemma_split(ts, i, members_tokens(members), close);
    if members.len() == 0 {
        assert(ts[i + 0] == close[0]);
    } else {
        let m0 = members[0];
        let rest = members.drop_first();
        let a = member_tokens(m0);
        let b = more_members_tokens(rest) + close;
        assert(members_tokens(members) + close =~= a + b);
        lemma_split(ts, i, a, b);
        assert(ts[i + 0] == a[0]);
        lemma_member_reads(ts, i, m0);
        lemma_more_members_reads(
            ts,
            i + a.len(),
            rest,
            Map::empty().insert(m0.0, syntax_model(m0.1)),
        );
    }
}

proof fn lemma_more_members_reads(
    ts: Seq<TokenView>,
    i: int,
    members: Seq<(Seq<char>, Syntax)>,
    acc: Map<Seq<char>, ValueView>,
)
    requires
        members_wf(members),
        0 <= i,
        i + more_members_tokens(members).len() + 1 <= ts.len(),
        ts.subrange(i, i + more_members_tokens(members).len() + 1) == more_members_tokens(members)
            + seq![TokenView::RightCurlyBracket],
    ensures
        object_rest(ts, i, acc) == (
            Ok::<ValueView, ErrorView>(ValueView::Object(members_model(members, acc))),
            i + more_members_tokens(members).len() + 1,
        ),
    decreases members,
{
    let close = seq![TokenView::RightCurlyBracket];
    lemma_split(ts, i, more_members_tokens(members), close);
    if members.len() == 0 {
        assert(ts[i + 0] == close[0]);
    } else {
        let m0 = members[0];
        let rest = members.drop_first();
        let comma = seq![TokenView::Comma];
        let a = member_tokens(m0);
        let b = more_members_tokens(rest) + close;
        assert(more_members_tokens(members) + close =~= comma + (a + b));
        lemma_split(ts, i, comma, a + b);
        lemma_split(ts, i + 1, a, b);
        assert(ts[i + 0] == comma[0]);
        lemma_member_reads(ts, i + 1, m0);
        lemma_more_members_reads(
            ts,
            i + 1 + a.len(),
            rest,
            acc.insert(m0.0, syntax_model(m0.1)),
        );
    }
}

// ---------------------------------------------------------------------------
// Whatever the parser reads is a derivation.
// ---------------------------------------------------------------------------

/// Two adjacent token ranges make one.
proof fn lemma_join(ts: Seq<TokenView>, i: int, m: int, j: int)
    requires
        0 <= i <= m <= j <= ts.len(),
    ensures
        ts.subrange(i, m) + ts.subrange(m, j) == ts.subrange(i, j),
{
    assert(ts.subrange(i, m) + ts.subrange(m, j) =~= ts.subrange(i, j));
}

proof fn lemma_value_syntax(ts: Seq<TokenView>, i: int) -> (t: Syntax)
    requires
        0 <= i <= ts.len(),
        value_at(ts, i).0 is Ok,
    ensures
        syntax_wf(t),
        syntax_tokens(t) == ts.subrange(i, value_at(ts, i).1),
    decreases ts.len() - i, 0int,
{
    let j = value_at(ts, i).1;
    match ts[i] {
        TokenView::LeftSquareBracket => {
            lemma_array_at_bounds(ts, i + 1);
            let items = lemma_array_syntax(ts, i + 1);
            lemma_join(ts, i, i + 1, j);
            assert(ts.subrange(i, i + 1) =~= seq![ts[i]]);
            assert(syntax_tokens(Syntax::Array(items)) =~= ts.subrange(i, j));
            Syntax::Array(items)
        },
        TokenView::LeftCurlyBracket => {
            lemma_object_at_bounds(ts, i + 1);
            let members = lemma_object_syntax(ts, i + 1);
            lemma_join(ts, i, i + 1, j);
            assert(ts.subrange(i, i + 1) =~= seq![ts[i]]);
            assert(syntax_tokens(Syntax::Object(members)) =~= ts.subrange(i, j));
            Syntax::Object(members)
        },
        _ => {
            assert(syntax_tokens(Syntax::Scalar(ts[i])) =~= ts.subrange(i, j));
            Syntax::Scalar(ts[i])
        },
    }
}

proof fn lemma_array_syntax(ts: Seq<TokenView>, i: int) -> (items: Seq<Syntax>)
    requires
        0 <= i <= ts.len(),
        array_at(ts, i).0 is Ok,
    ensures
        items_wf(items),
        items_tokens(items) + seq![TokenView::RightSquareBracket] == ts.subrange(
            i,
            array_at(ts, i).1,
        ),
    decreases ts.len() - i, 1int,
{
    let end = array_at(ts, i).1;
    if i < ts.len() && ts[i] is RightSquareBracket {
        let items: Seq<Syntax> = Seq::empty();
        assert(items_tokens(items) + seq![TokenView::RightSquareBracket] =~= ts.subrange(i, end));
        items
    } else {
        lemma_value_at_bounds(ts, i);
        let t0 = lemma_value_syntax(ts, i);
        let (r, j) = value_at(ts, i);
        lemma_array_rest_bounds(ts, j, seq![r->Ok_0]);
        let rest = lemma_more_items_syntax(ts, j, seq![r->Ok_0]);
        let items = seq![t0] + rest;
        assert(items[0] == t0);
        assert(items.drop_first() =~= rest);
        assert(end == array_rest(ts, j, seq![r->Ok_0]).1);
        lemma_join(ts, i, j, end);
        assert(items_tokens(items) == syntax_tokens(t0) + more_items_tokens(rest));
        assert(items_tokens(items) + seq![TokenView::RightSquareBracket] =~= ts.subrange(i, end));
        items
    }
}

proof fn lemma_more_items_syntax(ts: Seq<TokenView>, i: int, acc: Seq<ValueView>) -> (items: Seq<
    Syntax,
>)
    requires
        0 <= i <= ts.len(),
        array_rest(ts, i, acc).0 is Ok,
    ensures
        items_wf(items),
        more_items_tokens(items) + seq![TokenView::RightSquareBracket] == ts.subrange(
            i,
            array_rest(ts, i, acc).1,
        ),
    decreases ts.len() - i, 2int,
{
    let end = array_rest(ts, i, acc).1;
    if ts[i] is RightSquareBracket {
        let items: Seq<Syntax> = Seq::empty();
        assert(more_items_tokens(items) + seq![TokenView::RightSquareBracket] =~= ts.subrange(
            i,
            end,
        ));
        items
    } else {
        lemma_value_at_bounds(ts, i + 1);
        let t0 = lemma_value_syntax(ts, i + 1);
        let (r, j) = value_at(ts, i + 1);
        lemma_array_rest_bounds(ts, j, acc.push(r->Ok_0));
        let rest = lemma_more_items_syntax(ts, j, acc.push(r->Ok_0));
        let items = seq![t0] + rest;
        assert(items[0] == t0);
        assert(items.drop_first() =~= rest);
        assert(end == array_rest(ts, j, acc.push(r->Ok_0)).1);
        lemma_join(ts, i + 1, j, end);
        lemma_join(ts, i, i + 1, end);
        assert(ts.subrange(i, i + 1) =~= seq![TokenView::Comma]);
        assert(more_items_tokens(items) == seq![TokenView::Comma] + syntax_tokens(t0)
            + more_items_tokens(rest));
        assert(more_items_tokens(items) + seq![TokenView::RightSquareBracket] =~= ts.subrange(
            i,
            end,
        ));
        items
    }
}

proof fn lemma_member_syntax(ts: Seq<TokenView>, i: int) -> (m: (Seq<char>, Syntax))
    requires
        0 <= i <= ts.len(),
        member_at(ts, i).0 is Ok,
    ensures
        syntax_wf(m.1),
        member_tokens(m) == ts.subrange(i, member_at(ts, i).1),
    decreases ts.len() - i, 0int,
{
    let end = member_at(ts, i).1;
    let k = ts[i]->String_0;
    lemma_value_at_bounds(ts, i + 2);
    let t = lemma_value_syntax(ts, i + 2);
    assert(member_tokens((k, t)) =~= ts.subrange(i, end));
    (k, t)
}

proof fn lemma_object_syntax(ts: Seq<TokenView>, i: int) -> (members: Seq<(Seq<char>, Syntax)>)
    requires
        0 <= i <= ts.len(),
        object_at(ts, i).0 is Ok,
    ensures
        members_wf(members),
        members_tokens(members) + seq![TokenView::RightCurlyBracket] == ts.subrange(
            i,
            object_at(ts, i).1,
        ),
    decreases ts.len() - i, 1int,
{
    let end = object_at(ts, i).1;
    if i < ts.len() && ts[i] is RightCurlyBracket {
        let members: Seq<(Seq<char>, Syntax)> = Seq::empty();
        assert(members_tokens(members) + seq![TokenView::RightCurlyBracket] =~= ts.subrange(
            i,
            end,
        ));
        members
    } else {
        lemma_member_at_bounds(ts, i);
        let m0 = lemma_member_syntax(ts, i);
        let (r, j) = member_at(ts, i);
        let (k, v) = r->Ok_0;
        lemma_object_rest_bounds(ts, j, Map::empty().insert(k, v));
        let rest = lemma_more_members_syntax(ts, j, Map::empty().insert(k, v));
        let members = seq![m0] + rest;
        assert(members[0] == m0);
        assert(members.drop_first() =~= rest);
        assert(end == object_rest(ts, j, Map::empty().insert(k, v)).1);
        lemma_join(ts, i, j, end);
        assert(members_tokens(members) == member_tokens(m0) + more_members_tokens(rest));
        assert(members_tokens(members) + seq![TokenView::RightCurlyBracket] =~= ts.subrange(
            i,
            end,
        ));
        members
    }
}

proof fn lemma_more_members_syntax(
    ts: Seq<TokenView>,
    i: int,
    acc: Map<Seq<char>, ValueView>,
) -> (members: Seq<(Seq<char>, Syntax)>)
    requires
        0 <= i <= ts.len(),
        object_rest(ts, i, acc).0 is Ok,
    ensures
        members_wf(members),
        more_members_tokens(members) + seq![TokenView::RightCurlyBracket] == ts.subrange(
            i,
            object_rest(ts, i, acc).1,
        ),
    decreases ts.len() - i, 2int,
{
    let end = object_rest(ts, i, acc).1;
    if ts[i] is RightCurlyBracket {
        let members: Seq<(Seq<char>, Syntax)> = Seq::empty();
        assert(more_members_tokens(members) + seq![TokenView::RightCurlyBracket] =~= ts.subrange(
            i,
            end,
        ));
        members
    } else {
        lemma_member_at_bounds(ts, i + 1);
        let m0 = lemma_member_syntax(ts, i + 1);
        let (r, j) = member_at(ts, i + 1);
        let (k, v) = r->Ok_0;
        lemma_object_rest_bounds(ts, j, acc.insert(k, v));
        let rest = lemma_more_members_syntax(ts, j, acc.insert(k, v));
        let members = seq![m0] + rest;
        assert(members[0] == m0);
        assert(members.drop_first() =~= rest);
        assert(end == object_rest(ts, j, acc.insert(k, v)).1);
        lemma_join(ts, i + 1, j, end);
        lemma_join(ts, i, i + 1, end);
        assert(ts.subrange(i, i + 1) =~= seq![TokenView::Comma]);
        assert(more_members_tokens(members) == seq![TokenView::Comma] + member_tokens(m0)
            + more_members_tokens(rest));
        assert(more_members_tokens(members) + seq![TokenView::RightCurlyBracket] =~= ts.subrange(
            i,
            end,
        ));
        members
    }
}

// ---------------------------------------------------------------------------
// Objects with distinct keys.
// ---------------------------------------------------------------------------

/// No key occurs twice among the members.
pub open spec fn distinct_member_keys(ms: Seq<(Seq<char>, Syntax)>) -> bool {
    forall|i: int, j: int| 0 <= i < j < ms.len() ==> ms[i].0 != ms[j].0
}

/// The map from each member's key to the value of a member with that key.
pub open spec fn members_map(ms: Seq<(Seq<char>, Syntax)>) -> Map<Seq<char>, ValueView> {
    Map::new(
        |k: Seq<char>| exists|i: int| 0 <= i < ms.len() && #[trigger] ms[i].0 == k,
        |k: Seq<char>|
            syntax_model(ms[choose|i: int| 0 <= i < ms.len() && #[trigger] ms[i].0 == k].1),
    )
}

proof fn lemma_members_model_distinct(
    ms: Seq<(Seq<char>, Syntax)>,
    acc: Map<Seq<char>, ValueView>,
)
    requires
        distinct_member_keys(ms),
    ensures
        members_model(ms, acc) == acc.union_prefer_right(members_map(ms)),
    decreases ms.len(),
{
    if ms.len() == 0 {
        assert(members_map(ms) =~= Map::empty());
        assert(acc.union_prefer_right(members_map(ms)) =~= acc);
    } else {
        let rest = ms.drop_first();
        let (k0, t0) = ms[0];
        assert(distinct_member_keys(rest)) by {
            assert forall|i: int, j: int| 0 <= i < j < rest.len() implies rest[i].0 != rest[j].0 by {
                assert(rest[i] == ms[i + 1]);
                assert(rest[j] == ms[j + 1]);
            }
        }
        lemma_members_model_distinct(rest, acc.insert(k0, syntax_model(t0)));
        let lhs = acc.insert(k0, syntax_model(t0)).union_prefer_right(members_map(rest));
        let rhs = acc.union_prefer_right(members_map(ms));
        assert forall|k: Seq<char>| #[trigger] lhs.dom().contains(k) <==> rhs.dom().contains(k) by {
            if members_map(rest).dom().contains(k) {
                let i = choose|i: int| 0 <= i < rest.len() && #[trigger] rest[i].0 == k;
                assert(ms[i + 1] == rest[i]);
            }
            if members_map(ms).dom().contains(k) && k != k0 {
                let i = choose|i: int| 0 <= i < ms.len() && #[trigger] ms[i].0 == k;
                assert(i != 0);
                assert(rest[i - 1] == ms[i]);
            }
            if k == k0 {
                assert(ms[0].0 == k0);
            }
        }
        assert forall|k: Seq<char>| #[trigger] lhs.dom().contains(k) implies lhs[k] == rhs[k] by {
            if k == k0 {
                assert(ms[0].0 == k0);
                let i = choose|i: int| 0 <= i < ms.len() && #[trigger] ms[i].0 == k;
                if i != 0 {
                    assert(ms[0].0 != ms[i].0);
                }
                if members_map(rest).dom().contains(k) {
                    let i2 = choose|i: int| 0 <= i < rest.len() && #[trigger] rest[i].0 == k;
                    assert(ms[i2 + 1] == rest[i2]);
                    assert(ms[0].0 != ms[i2 + 1].0);
                }
            } else if members_map(rest).dom().contains(k) {
                let i2 = choose|i: int| 0 <= i < rest.len() && #[trigger] rest[i].0 == k;
                assert(ms[i2 + 1] == rest[i2]);
                let i = choose|i: int| 0 <= i < ms.len() && #[trigger] ms[i].0 == k;
                if i != i2 + 1 {
                    if i < i2 + 1 {
                        assert(ms[i].0 != ms[i2 + 1].0);
                    } else {
                        assert(ms[i2 + 1].0 != ms[i].0);
                    }
                }
            } else {
                if members_map(ms).dom().contains(k) {
                    let i = choose|i: int| 0 <= i < ms.len() && #[trigger] ms[i].0 == k;
                    assert(i != 0);
                    assert(rest[i - 1] == ms[i]);
                }
            }
        }
        assert(lhs =~= rhs);
    }
}

/// Two orders of the same members, each key once, give the same object.
pub proof fn law_member_order_is_irrelevant(
    ms1: Seq<(Seq<char>, Syntax)>,
    ms2: Seq<(Seq<char>, Syntax)>,
)
    requires
        distinct_member_keys(ms1),
        distinct_member_keys(ms2),
        ms1.to_multiset() == ms2.to_multiset(),
    ensures
        syntax_model(Syntax::Object(ms1)) == syntax_model(Syntax::Object(ms2)),
{
    broadcast use vstd::seq_lib::group_to_multiset_ensures;

    lemma_members_model_distinct(ms1, Map::empty());
    lemma_members_model_distinct(ms2, Map::empty());
    let m1 = members_map(ms1);
    let m2 = members_map(ms2);
    assert forall|k: Seq<char>| #[trigger] m1.dom().contains(k) implies m2.dom().contains(k)
        && m1[k] == m2[k] by {
        let i = choose|i: int| 0 <= i < ms1.len() && #[trigger] ms1[i].0 == k;
        assert(ms1.contains(ms1[i]));
        assert(ms1.to_multiset().count(ms1[i]) > 0);
        assert(ms2.contains(ms1[i]));
        let j = choose|j: int| 0 <= j < ms2.len() && ms2[j] == ms1[i];
        assert(ms2[j].0 == k);
        let i1 = choose|i: int| 0 <= i < ms1.len() && #[trigger] ms1[i].0 == k;
        let j1 = choose|j: int| 0 <= j < ms2.len() && #[trigger] ms2[j].0 == k;
        if i1 != i {
            if i1 < i {
                assert(ms1[i1].0 != ms1[i].0);
            } else {
                assert(ms1[i].0 != ms1[i1].0);
            }
        }
        if j1 != j {
            if j1 < j {
                assert(ms2[j1].0 != ms2[j].0);
            } else {
                assert(ms2[j].0 != ms2[j1].0);
            }
        }
    }
    assert forall|k: Seq<char>| #[trigger] m2.dom().contains(k) implies m1.dom().contains(k) by {
        let j = choose|j: int| 0 <= j < ms2.len() && #[trigger] ms2[j].0 == k;
        assert(ms2.contains(ms2[j]));
        assert(ms2.to_multiset().count(ms2[j]) > 0);
        assert(ms1.contains(ms2[j]));
        let i = choose|i: int| 0 <= i < ms1.len() && ms1[i] == ms2[j];
        assert(ms1[i].0 == k);
    }
    assert(m1 =~= m2);
    let e: Map<Seq<char>, ValueView> = Map::empty();
    assert(e.union_prefer_right(m1) =~= m1);
    assert(e.union_prefer_right(m2) =~= m2);
}

/// Reading an object's members and its closing brace gives the same result
/// for any order of the same members, each key once.
pub proof fn law_object_reading_ignores_member_order(
    ms1: Seq<(Seq<char>, Syntax)>,
    ms2: Seq<(Seq<char>, Syntax)>,
)
    requires
        members_wf(ms1),
        members_wf(ms2),
        distinct_member_keys(ms1),
        distinct_member_keys(ms2),
        ms1.to_multiset() == ms2.to_multiset(),
    ensures
        object_at(members_tokens(ms1) + seq![TokenView::RightCurlyBracket], 0).0 == object_at(
            members_tokens(ms2) + seq![TokenView::RightCurlyBracket],
            0,
        ).0,
{
    let ts1 = members_tokens(ms1) + seq![TokenView::RightCurlyBracket];
    let ts2 = members_tokens(ms2) + seq![TokenView::RightCurlyBracket];
    assert(ts1.subrange(0, ts1.len() as int) =~= ts1);
    assert(ts2.subrange(0, ts2.len() as int) =~= ts2);
    lemma_object_reads(ts1, 0, ms1);
    lemma_object_reads(ts2, 0, ms2);
    law_member_order_is_irrelevant(ms1, ms2);
}

/// Two texts for objects that hold the same members, each key once, in
/// different orders, have the same value.
pub proof fn law_parse_ignores_member_order(
    s1: Seq<char>,
    s2: Seq<char>,
    ms1: Seq<(Seq<char>, Syntax)>,
    ms2: Seq<(Seq<char>, Syntax)>,
)
    requires
        members_wf(ms1),
        members_wf(ms2),
        spec_lex(s1) == Ok::<Seq<TokenView>, LexErrorView>(syntax_tokens(Syntax::Object(ms1))),
        spec_lex(s2) == Ok::<Seq<TokenView>, LexErrorView>(syntax_tokens(Syntax::Object(ms2))),
        distinct_member_keys(ms1),
        distinct_member_keys(ms2),
        ms1.to_multiset() == ms2.to_multiset(),
    ensures
        spec_parse(s1) == spec_parse(s2),
{
    law_parse_gives_the_derived_value(s1, Syntax::Object(ms1));
    law_parse_gives_the_derived_value(s2, Syntax::Object(ms2));
    law_member_order_is_irrelevant(ms1, ms2);
}

// ---------------------------------------------------------------------------
// The laws.
// ---------------------------------------------------------------------------

/// A text whose tokens are those of a derivation has the value that the
/// derivation stands for.
pub proof fn law_parse_gives_the_derived_value(s: Seq<char>, t: Syntax)
    requires
        syntax_wf(t),
        spec_lex(s) == Ok::<Seq<TokenView>, LexErrorView>(syntax_tokens(t)),
    ensures
        spec_parse(s) == Ok::<ValueView, ErrorView>(syntax_model(t)),
{
    let ts = syntax_tokens(t);
    assert(ts.subrange(0, ts.len() as int) =~= ts);
    lemma_value_reads(ts, 0, t);
}

/// `parse` succeeds exactly on the texts that tokenize and whose tokens, all
/// of them, are derived by the grammar of values.
pub proof fn law_parse_accepts_exactly_the_grammar(s: Seq<char>)
    ensures
        spec_parse(s) is Ok <==> (spec_lex(s) is Ok && exists|t: Syntax|
            syntax_wf(t) && #[trigger] syntax_tokens(t) == spec_lex(s)->Ok_0),
{
    if spec_parse(s) is Ok {
        let ts = spec_lex(s)->Ok_0;
        lemma_value_at_bounds(ts, 0);
        let t = lemma_value_syntax(ts, 0);
        assert(ts.subrange(0, ts.len() as int) =~= ts);
        assert(syntax_wf(t) && syntax_tokens(t) == ts);
    }
    if spec_lex(s) is Ok && exists|t: Syntax|
        syntax_wf(t) && #[trigger] syntax_tokens(t) == spec_lex(s)->Ok_0 {
        let t = choose|t: Syntax| syntax_wf(t) && #[trigger] syntax_tokens(t) == spec_lex(s)->Ok_0;
        law_parse_gives_the_derived_value(s, t);
    }
}

} // verus!
