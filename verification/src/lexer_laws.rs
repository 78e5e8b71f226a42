//! What holds of lexing: of the positions that tokens do not carry, and of
//! text that follows a text whose tokens are all complete.

use vstd::prelude::*;
use crate::lexer::first_lexeme;
use crate::lexer::is_quoted_char;
use crate::lexer::is_unquoted_char;
use crate::lexer::lemma_first_lexeme_bounds;
use crate::lexer::lemma_quoted_rest_bounds;
use crate::lexer::lemma_unquoted_end_bounds;
use crate::lexer::lex;
use crate::lexer::quoted_rest;
use crate::lexer::unquoted_end;
use crate::lexer::LexItem;
use crate::lexer::TokenView;

verus! {

/// Whether none of the items is a lexical error.
pub open spec fn is_error_free(items: Seq<LexItem>) -> bool {
    forall|k: int| 0 <= k < items.len() ==> (#[trigger] items[k]) is Ok
}

/// How many characters a quoted token takes does not depend on where in the
/// input it stands, and neither does the token, unless it is an error.
pub proof fn lemma_quoted_rest_base(
    s: Seq<char>,
    i: int,
    value: Seq<char>,
    base: nat,
    other_base: nat,
)
    requires
        0 <= i <= s.len(),
    ensures
        quoted_rest(s, i, value, other_base).len == quoted_rest(s, i, value, base).len,
        quoted_rest(s, i, value, base).item is Ok ==> quoted_rest(s, i, value, other_base)
            == quoted_rest(s, i, value, base),
    decreases s.len() - i,
{
    if i < s.len() && is_quoted_char(s[i]) && s[i] != '"' {
        if s[i] != '\\' {
            lemma_quoted_rest_base(s, i + 1, value.push(s[i]), base, other_base);
        } else if i + 1 < s.len() && (s[i + 1] == '"' || s[i + 1] == '\\') {
            lemma_quoted_rest_base(s, i + 2, value.push(s[i + 1]), base, other_base);
        }
    }
}

/// How many characters a lexeme takes does not depend on where in the input
/// it stands, and neither does its token, unless it is an error.
pub proof fn lemma_first_lexeme_base(s: Seq<char>, base: nat, other_base: nat)
    requires
        s.len() > 0,
    ensures
        first_lexeme(s, other_base).len == first_lexeme(s, base).len,
        first_lexeme(s, base).item is Ok ==> first_lexeme(s, other_base) == first_lexeme(s, base),
{
    lemma_quoted_rest_base(s.skip(1), 0, Seq::empty(), base + 1, other_base + 1);
}

/// Tokens carry no positions: an input without lexical errors has the same
/// tokens wherever it stands.
pub proof fn lemma_lex_base(s: Seq<char>, base: nat, other_base: nat)
    requires
        is_error_free(lex(s, base)),
    ensures
        lex(s, other_base) == lex(s, base),
    decreases s.len(),
{
    if s.len() > 0 {
        let first = first_lexeme(s, base);
        let rest = s.skip(first.len as int);
        lemma_first_lexeme_bounds(s, base);
        lemma_first_lexeme_base(s, base, other_base);
        let items = lex(s, base);
        assert(items == seq![first.item] + lex(rest, base + first.len));
        assert(items[0] is Ok);
        assert forall|k: int| 0 <= k < lex(rest, base + first.len).len() implies (#[trigger] lex(
            rest,
            base + first.len,
        )[k]) is Ok by {
            assert(items[k + 1] == lex(rest, base + first.len)[k]);
        }
        lemma_lex_base(rest, base + first.len, other_base + first.len);
    }
}

/// Whether the quoted token whose characters after the opening quote are
/// those of `s`, of which the first `i` were read, ends before `s` does: at
/// a closing quote, or at a character that it refuses.
pub open spec fn quote_is_closed(s: Seq<char>, i: int) -> bool
    decreases s.len() - i,
{
    if !(0 <= i < s.len()) {
        false
    } else if !is_quoted_char(s[i]) {
        true
    } else if s[i] == '"' {
        true
    } else if s[i] != '\\' {
        quote_is_closed(s, i + 1)
    } else if i + 1 == s.len() {
        false
    } else if s[i + 1] == '"' || s[i + 1] == '\\' {
        quote_is_closed(s, i + 2)
    } else {
        true
    }
}

/// Whether each quoted token of the text `s` ends before the text does, so
/// that no text that follows `s` is taken into one of them.
pub open spec fn is_closed(s: Seq<char>) -> bool
    decreases s.len(),
    via is_closed_decreases
{
    if s.len() == 0 {
        true
    } else {
        &&& s[0] == '"' ==> quote_is_closed(s.skip(1), 0)
        &&& is_closed(s.skip(first_lexeme(s, 0).len as int))
    }
}

#[via_fn]
proof fn is_closed_decreases(s: Seq<char>) {
    if s.len() > 0 {
        lemma_first_lexeme_bounds(s, 0);
    }
}

/// A quoted token that ends before the text does is the same whatever
/// follows the text.
pub proof fn lemma_quoted_rest_extends(
    s: Seq<char>,
    t: Seq<char>,
    i: int,
    value: Seq<char>,
    base: nat,
)
    requires
        0 <= i <= s.len(),
        quote_is_closed(s, i),
    ensures
        quoted_rest(s + t, i, value, base) == quoted_rest(s, i, value, base),
    decreases s.len() - i,
{
    let longer = s + t;
    assert(longer[i] == s[i]);
    if is_quoted_char(s[i]) && s[i] != '"' {
        if s[i] != '\\' {
            lemma_quoted_rest_extends(s, t, i + 1, value.push(s[i]), base);
        } else {
            assert(longer[i + 1] == s[i + 1]);
            if s[i + 1] == '"' || s[i + 1] == '\\' {
                lemma_quoted_rest_extends(s, t, i + 2, value.push(s[i + 1]), base);
            }
        }
    }
}

/// An unquoted token ends where it ends if a character follows the text
/// that cannot continue it.
pub proof fn lemma_unquoted_end_extends(s: Seq<char>, t: Seq<char>, i: int)
    requires
        0 <= i <= s.len(),
        t.len() == 0 || !is_unquoted_char(t[0]),
    ensures
        unquoted_end(s + t, i) == unquoted_end(s, i),
    decreases s.len() - i,
{
    let longer = s + t;
    if i < s.len() {
        assert(longer[i] == s[i]);
        if is_unquoted_char(s[i]) {
            lemma_unquoted_end_extends(s, t, i + 1);
        }
    } else if t.len() > 0 {
        assert(longer[i] == t[0]);
    }
}

/// The first lexeme of a text is the same whatever follows the text, if it
/// ends before the text does and what follows cannot continue it.
pub proof fn lemma_first_lexeme_extends(s: Seq<char>, t: Seq<char>, base: nat)
    requires
        s.len() > 0,
        s[0] == '"' ==> quote_is_closed(s.skip(1), 0),
        t.len() == 0 || !is_unquoted_char(t[0]),
    ensures
        first_lexeme(s + t, base) == first_lexeme(s, base),
{
    let longer = s + t;
    assert(longer[0] == s[0]);
    if s[0] == '"' {
        assert(longer.skip(1) == s.skip(1) + t);
        lemma_quoted_rest_extends(s.skip(1), t, 0, Seq::empty(), base + 1);
    } else if is_unquoted_char(s[0]) {
        lemma_unquoted_end_extends(s, t, 0);
        lemma_unquoted_end_bounds(s, 0);
        let end = unquoted_end(s, 0);
        assert(longer.take(end) == s.take(end));
    }
}

/// The tokens of a text that is followed by another are the tokens of the
/// one, then the tokens of the other, if the quoted tokens of the first end
/// before it does and the second does not start with a character of an
/// unquoted token.
pub proof fn lemma_lex_extends(s: Seq<char>, t: Seq<char>, base: nat)
    requires
        is_closed(s),
        t.len() == 0 || !is_unquoted_char(t[0]),
    ensures
        lex(s + t, base) == lex(s, base) + lex(t, base + s.len()),
    decreases s.len(),
{
    if s.len() == 0 {
        assert(s + t == t);
        assert(lex(s, base) + lex(t, base + s.len()) == lex(t, base));
    } else {
        let longer = s + t;
        let first = first_lexeme(s, base);
        lemma_first_lexeme_bounds(s, base);
        lemma_first_lexeme_base(s, 0, base);
        lemma_first_lexeme_extends(s, t, base);
        let rest = s.skip(first.len as int);
        assert(longer.skip(first.len as int) == rest + t);
        lemma_lex_extends(rest, t, base + first.len);
        assert(lex(longer, base) == seq![first.item] + lex(rest + t, base + first.len));
        assert(lex(s, base) == seq![first.item] + lex(rest, base + first.len));
        assert(seq![first.item] + (lex(rest, base + first.len) + lex(t, base + s.len())) == (seq![
            first.item,
        ] + lex(rest, base + first.len)) + lex(t, base + s.len()));
    }
}

/// The tokens of a text in parentheses are the tokens of the text between
/// the two parentheses, if the text has no lexical error and its quoted
/// tokens end before it does.
pub proof fn lemma_lex_in_parentheses(s: Seq<char>)
    requires
        is_closed(s),
        is_error_free(lex(s, 0)),
    ensures
        lex(seq!['('] + s + seq![')'], 0) == seq![Ok::<TokenView, crate::lexer::LexerError>(TokenView::OpenParen)] + lex(s, 0) + seq![
            Ok::<TokenView, crate::lexer::LexerError>(TokenView::CloseParen),
        ],
{
    let close = seq![')'];
    let whole = seq!['('] + s + close;
    let inner = s + close;
    assert(whole.skip(1) == inner);
    assert(whole[0] == '(');
    assert(first_lexeme(whole, 0).len == 1);
    assert(lex(whole, 0) == seq![first_lexeme(whole, 0).item] + lex(inner, 1));
    lemma_lex_extends(s, close, 1);
    lemma_lex_base(s, 0, 1);
    let after = (1 + s.len()) as nat;
    assert(close.skip(1) == Seq::<char>::empty());
    assert(first_lexeme(close, after).len == 1);
    assert(lex(close.skip(1), after + 1) == Seq::<LexItem>::empty());
    assert(lex(close, after) == seq![first_lexeme(close, after).item] + lex(
        close.skip(1),
        after + 1,
    ));
    assert(lex(close, after) == seq![
        Ok::<TokenView, crate::lexer::LexerError>(TokenView::CloseParen),
    ]);
}

} // verus!
