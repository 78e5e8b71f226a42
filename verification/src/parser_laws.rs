//! What holds of parsing: of scopes that mix the two operators, of an
//! expression that stands in one more pair of parentheses, and of inputs
//! that are accepted.

use vstd::prelude::*;
use crate::authorization_expression::Expression;
use crate::lexer::lex;
use crate::lexer::LexItem;
use crate::lexer::LexerError;
use crate::lexer::Operator;
use crate::lexer::TokenView;
use crate::lexer_laws::is_closed;
use crate::lexer_laws::is_error_free;
use crate::lexer_laws::lemma_lex_in_parentheses;
use crate::parser::lemma_parse_scope_bounds;
use crate::parser::parse_scope;
use crate::parser::parse_text;
use crate::parser::ParserErrorView;
use crate::parser::ScopeView;
use crate::parser::MAX_NESTING_DEPTH;

verus! {

/// Whether the tokens from index `at` on are access tokens and operators
/// only: no parenthesis and no lexical error.
pub open spec fn is_flat(tokens: Seq<LexItem>, at: int) -> bool
    decreases tokens.len() - at,
{
    if at < 0 || at >= tokens.len() {
        true
    } else {
        match tokens[at] {
            Ok(TokenView::AccessToken(_)) => is_flat(tokens, at + 1),
            Ok(TokenView::And) => is_flat(tokens, at + 1),
            Ok(TokenView::Or) => is_flat(tokens, at + 1),
            _ => false,
        }
    }
}

/// Whether one of the tokens from index `at` on is the operator `operator`.
pub open spec fn holds_operator(tokens: Seq<LexItem>, at: int, operator: Operator) -> bool
    decreases tokens.len() - at,
{
    if at < 0 || at >= tokens.len() {
        false
    } else {
        match (tokens[at], operator) {
            (Ok(TokenView::And), Operator::Conjunction) => true,
            (Ok(TokenView::Or), Operator::Disjunction) => true,
            _ => holds_operator(tokens, at + 1, operator),
        }
    }
}

/// Whether the scope `scope`, once the tokens from index `at` on are taken,
/// will have seen both operators.
pub open spec fn mixes_operators(tokens: Seq<LexItem>, at: int, scope: ScopeView) -> bool {
    match scope.operator {
        None => holds_operator(tokens, at, Operator::Conjunction) && holds_operator(
            tokens,
            at,
            Operator::Disjunction,
        ),
        Some(Operator::Conjunction) => holds_operator(tokens, at, Operator::Disjunction),
        Some(Operator::Disjunction) => holds_operator(tokens, at, Operator::Conjunction),
    }
}

/// A scope without parentheses that sees both operators is refused with
/// `MixingOperators`, whatever else it holds.
pub proof fn lemma_mixing_is_refused(tokens: Seq<LexItem>, at: int, scope: ScopeView, depth: nat)
    requires
        0 <= at <= tokens.len(),
        is_flat(tokens, at),
        mixes_operators(tokens, at, scope),
    ensures
        parse_scope(tokens, at, scope, depth).result == Err::<
            crate::authorization_expression::Expression,
            ParserErrorView,
        >(ParserErrorView::MixingOperators),
    decreases tokens.len() - at,
{
    if at < tokens.len() {
        match tokens[at] {
            Ok(TokenView::AccessToken(value)) => {
                lemma_mixing_is_refused(tokens, at + 1, scope.append_access_token(value), depth);
            },
            Ok(TokenView::And) => {
                if let Ok(with_operator) = scope.set_operator(Operator::Conjunction) {
                    lemma_mixing_is_refused(tokens, at + 1, with_operator, depth);
                }
            },
            Ok(TokenView::Or) => {
                if let Ok(with_operator) = scope.set_operator(Operator::Disjunction) {
                    lemma_mixing_is_refused(tokens, at + 1, with_operator, depth);
                }
            },
            _ => {},
        }
    }
}

/// Parsing tokens that hold both operators and no parentheses ends with
/// `MixingOperators`.
pub proof fn lemma_mixed_operators_are_refused(tokens: Seq<LexItem>)
    requires
        is_flat(tokens, 0),
        holds_operator(tokens, 0, Operator::Conjunction),
        holds_operator(tokens, 0, Operator::Disjunction),
    ensures
        parse_scope(tokens, 0, ScopeView::empty(), 0).result == Err::<
            crate::authorization_expression::Expression,
            ParserErrorView,
        >(ParserErrorView::MixingOperators),
{
    lemma_mixing_is_refused(tokens, 0, ScopeView::empty(), 0);
}

/// Whether the tokens from index `at` on, found inside `depth` open scopes,
/// hold no lexical error, close each of these scopes and each scope that
/// they open, and open none so deep that one more scope around all of them
/// would go beyond the limit of nesting.
pub open spec fn nests_well(tokens: Seq<LexItem>, at: int, depth: nat) -> bool
    decreases tokens.len() - at,
{
    if at < 0 || at >= tokens.len() {
        depth == 0
    } else {
        match tokens[at] {
            Err(_) => false,
            Ok(TokenView::OpenParen) => depth + 1 < MAX_NESTING_DEPTH && nests_well(
                tokens,
                at + 1,
                depth + 1,
            ),
            Ok(TokenView::CloseParen) => depth > 0 && nests_well(
                tokens,
                at + 1,
                (depth - 1) as nat,
            ),
            Ok(_) => nests_well(tokens, at + 1, depth),
        }
    }
}

/// Whether the tokens are those of a well-formed expression: without lexical
/// error, with balanced parentheses, and nested less deep than the limit.
pub open spec fn is_well_formed(tokens: Seq<LexItem>) -> bool {
    nests_well(tokens, 0, 0)
}

/// The tokens inside one more pair of parentheses.
pub open spec fn parenthesized(tokens: Seq<LexItem>) -> Seq<LexItem> {
    seq![Ok(TokenView::OpenParen)] + tokens + seq![Ok(TokenView::CloseParen)]
}

/// A scope is parsed inside one more pair of parentheses as it is parsed
/// without them: to the same result, and up to the same token.
pub proof fn lemma_scope_inside_parentheses(
    tokens: Seq<LexItem>,
    at: int,
    scope: ScopeView,
    depth: nat,
)
    requires
        0 <= at <= tokens.len(),
        nests_well(tokens, at, depth),
    ensures
        ({
            let inside = parse_scope(parenthesized(tokens), at + 1, scope, depth + 1);
            let alone = parse_scope(tokens, at, scope, depth);
            &&& inside.result == alone.result
            &&& alone.result is Ok && depth > 0 ==> {
                &&& at < alone.next <= tokens.len()
                &&& inside.next == alone.next + 1
                &&& nests_well(tokens, alone.next, (depth - 1) as nat)
            }
            &&& alone.result is Ok && depth == 0 ==> {
                &&& alone.next == tokens.len()
                &&& inside.next == tokens.len() + 2
            }
        }),
    decreases tokens.len() - at,
{
    let wrapped = parenthesized(tokens);
    assert(wrapped.len() == tokens.len() + 2);
    if at < tokens.len() {
        assert(wrapped[at + 1] == tokens[at]);
        match tokens[at] {
            Err(e) => {},
            Ok(TokenView::AccessToken(value)) => {
                lemma_scope_inside_parentheses(
                    tokens,
                    at + 1,
                    scope.append_access_token(value),
                    depth,
                );
            },
            Ok(TokenView::And) => {
                if let Ok(with_operator) = scope.set_operator(Operator::Conjunction) {
                    lemma_scope_inside_parentheses(tokens, at + 1, with_operator, depth);
                }
            },
            Ok(TokenView::Or) => {
                if let Ok(with_operator) = scope.set_operator(Operator::Disjunction) {
                    lemma_scope_inside_parentheses(tokens, at + 1, with_operator, depth);
                }
            },
            Ok(TokenView::CloseParen) => {},
            Ok(TokenView::OpenParen) => {
                lemma_scope_inside_parentheses(tokens, at + 1, ScopeView::empty(), depth + 1);
                let alone_inner = parse_scope(tokens, at + 1, ScopeView::empty(), depth + 1);
                let inside_inner = parse_scope(wrapped, at + 2, ScopeView::empty(), depth + 2);
                assert(inside_inner.result == alone_inner.result);
                if let Ok(node) = alone_inner.result {
                    assert(at + 1 < alone_inner.next <= tokens.len());
                    assert(inside_inner.next == alone_inner.next + 1);
                    lemma_scope_inside_parentheses(
                        tokens,
                        alone_inner.next,
                        scope.append_node(node),
                        depth,
                    );
                }
            },
        }
    } else {
        assert(wrapped[at + 1] == Ok::<TokenView, crate::lexer::LexerError>(TokenView::CloseParen));
    }
}

/// A well-formed expression in one more pair of parentheses parses to what
/// it parses to without them.
pub proof fn lemma_parentheses_are_transparent(tokens: Seq<LexItem>)
    requires
        is_well_formed(tokens),
    ensures
        parse_scope(parenthesized(tokens), 0, ScopeView::empty(), 0).result == parse_scope(
            tokens,
            0,
            ScopeView::empty(),
            0,
        ).result,
{
    let wrapped = parenthesized(tokens);
    assert(wrapped.len() == tokens.len() + 2);
    assert(wrapped[0] == Ok::<TokenView, crate::lexer::LexerError>(TokenView::OpenParen));
    lemma_scope_inside_parentheses(tokens, 0, ScopeView::empty(), 0);
    let inside = parse_scope(wrapped, 1, ScopeView::empty(), 1);
    let alone = parse_scope(tokens, 0, ScopeView::empty(), 0);
    if let Ok(node) = alone.result {
        let outer = ScopeView::empty().append_node(node);
        assert(inside.next == wrapped.len());
        assert(outer.nodes.len() == 1);
        assert(outer.access_tokens.len() == 0);
        assert(outer.nodes[0] == node);
        assert(parse_scope(wrapped, wrapped.len() as int, outer, 0).result == outer.build());
    }
}

/// Well-nested tokens hold no lexical error.
pub proof fn lemma_well_nested_is_error_free(tokens: Seq<LexItem>, at: int, depth: nat, k: int)
    requires
        0 <= at <= k < tokens.len(),
        nests_well(tokens, at, depth),
    ensures
        tokens[k] is Ok,
    decreases tokens.len() - at,
{
    if at < k {
        match tokens[at] {
            Ok(TokenView::OpenParen) => {
                lemma_well_nested_is_error_free(tokens, at + 1, depth + 1, k);
            },
            Ok(TokenView::CloseParen) => {
                lemma_well_nested_is_error_free(tokens, at + 1, (depth - 1) as nat, k);
            },
            _ => {
                lemma_well_nested_is_error_free(tokens, at + 1, depth, k);
            },
        }
    }
}

/// The text of a well-formed expression in one more pair of parentheses
/// parses to what it parses to without them. The text is well-formed if its
/// tokens are and each of its quoted tokens has its closing quote.
pub proof fn lemma_parenthesized_text_parses_alike(text: Seq<char>)
    requires
        is_closed(text),
        is_well_formed(lex(text, 0)),
    ensures
        parse_text(seq!['('] + text + seq![')']) == parse_text(text),
{
    let tokens = lex(text, 0);
    assert forall|k: int| 0 <= k < tokens.len() implies (#[trigger] tokens[k]) is Ok by {
        lemma_well_nested_is_error_free(tokens, 0, 0, k);
    }
    assert(is_error_free(tokens));
    lemma_lex_in_parentheses(text);
    assert(lex(seq!['('] + text + seq![')'], 0) == parenthesized(tokens));
    lemma_parentheses_are_transparent(tokens);
}

/// A closing parenthesis that closes no scope is refused, whatever was
/// found before it and whatever follows it.
pub proof fn lemma_stray_close_is_refused(tokens: Seq<LexItem>, at: int, scope: ScopeView)
    requires
        0 <= at < tokens.len(),
        tokens[at] == Ok::<TokenView, LexerError>(TokenView::CloseParen),
    ensures
        parse_scope(tokens, at, scope, 0).result == Err::<Expression, ParserErrorView>(
            ParserErrorView::UnexpectedToken(TokenView::CloseParen),
        ),
{
}

/// Where the outermost scope is parsed to an expression, it was parsed to
/// the end of the tokens, and none of them is a lexical error: no token of
/// an accepted input is left unread.
pub proof fn lemma_accepted_is_read_to_the_end(tokens: Seq<LexItem>, at: int, scope: ScopeView)
    requires
        0 <= at <= tokens.len(),
        parse_scope(tokens, at, scope, 0).result is Ok,
    ensures
        parse_scope(tokens, at, scope, 0).next == tokens.len(),
        forall|k: int| at <= k < tokens.len() ==> (#[trigger] tokens[k]) is Ok,
    decreases tokens.len() - at,
{
    if at < tokens.len() {
        match tokens[at] {
            Err(e) => {},
            Ok(TokenView::AccessToken(value)) => {
                lemma_accepted_is_read_to_the_end(tokens, at + 1, scope.append_access_token(value));
            },
            Ok(TokenView::And) => {
                let with_operator = scope.set_operator(Operator::Conjunction)->Ok_0;
                lemma_accepted_is_read_to_the_end(tokens, at + 1, with_operator);
            },
            Ok(TokenView::Or) => {
                let with_operator = scope.set_operator(Operator::Disjunction)->Ok_0;
                lemma_accepted_is_read_to_the_end(tokens, at + 1, with_operator);
            },
            Ok(TokenView::CloseParen) => {},
            Ok(TokenView::OpenParen) => {
                let inner = parse_scope(tokens, at + 1, ScopeView::empty(), 1);
                lemma_parse_scope_bounds(tokens, at + 1, ScopeView::empty(), 1);
                lemma_accepted_has_no_error(tokens, at + 1, ScopeView::empty(), 1);
                let node = inner.result->Ok_0;
                lemma_accepted_is_read_to_the_end(tokens, inner.next, scope.append_node(node));
            },
        }
    }
}

/// Where a scope is parsed to an expression, none of the tokens that were
/// taken for it is a lexical error.
pub proof fn lemma_accepted_has_no_error(
    tokens: Seq<LexItem>,
    at: int,
    scope: ScopeView,
    depth: nat,
)
    requires
        0 <= at <= tokens.len(),
        parse_scope(tokens, at, scope, depth).result is Ok,
    ensures
        forall|k: int|
            at <= k < parse_scope(tokens, at, scope, depth).next ==> (#[trigger] tokens[k]) is Ok,
    decreases tokens.len() - at,
{
    if at < tokens.len() {
        match tokens[at] {
            Err(e) => {},
            Ok(TokenView::AccessToken(value)) => {
                lemma_accepted_has_no_error(
                    tokens,
                    at + 1,
                    scope.append_access_token(value),
                    depth,
                );
            },
            Ok(TokenView::And) => {
                let with_operator = scope.set_operator(Operator::Conjunction)->Ok_0;
                lemma_accepted_has_no_error(tokens, at + 1, with_operator, depth);
            },
            Ok(TokenView::Or) => {
                let with_operator = scope.set_operator(Operator::Disjunction)->Ok_0;
                lemma_accepted_has_no_error(tokens, at + 1, with_operator, depth);
            },
            Ok(TokenView::CloseParen) => {},
            Ok(TokenView::OpenParen) => {
                if depth < MAX_NESTING_DEPTH {
                    let inner = parse_scope(tokens, at + 1, ScopeView::empty(), depth + 1);
                    lemma_parse_scope_bounds(tokens, at + 1, ScopeView::empty(), depth + 1);
                    lemma_accepted_has_no_error(tokens, at + 1, ScopeView::empty(), depth + 1);
                    let node = inner.result->Ok_0;
                    lemma_accepted_has_no_error(
                        tokens,
                        inner.next,
                        scope.append_node(node),
                        depth,
                    );
                }
            },
        }
    }
}

/// Whether the tokens from index `at` on, found inside `depth` open scopes,
/// open no scope so deep that one more scope around all of them would go
/// beyond the limit of nesting.
pub open spec fn nests_below_limit(tokens: Seq<LexItem>, at: int, depth: nat) -> bool
    decreases tokens.len() - at,
{
    if at < 0 || at >= tokens.len() {
        true
    } else {
        match tokens[at] {
            Ok(TokenView::OpenParen) => depth + 1 < MAX_NESTING_DEPTH && nests_below_limit(
                tokens,
                at + 1,
                depth + 1,
            ),
            Ok(TokenView::CloseParen) => nests_below_limit(
                tokens,
                at + 1,
                if depth > 0 {
                    (depth - 1) as nat
                } else {
                    depth
                },
            ),
            _ => nests_below_limit(tokens, at + 1, depth),
        }
    }
}

/// A scope that is parsed to an expression is parsed to the same expression
/// inside one more pair of parentheses. Where it ends before the tokens do,
/// it ends at the same token; where it ends with the tokens, it ends after
/// the added parenthesis or, if the last token closed it, before.
pub proof fn lemma_accepted_inside_parentheses(
    tokens: Seq<LexItem>,
    at: int,
    scope: ScopeView,
    depth: nat,
)
    requires
        0 <= at <= tokens.len(),
        nests_below_limit(tokens, at, depth),
        parse_scope(tokens, at, scope, depth).result is Ok,
    ensures
        ({
            let inside = parse_scope(parenthesized(tokens), at + 1, scope, depth + 1);
            let alone = parse_scope(tokens, at, scope, depth);
            &&& inside.result == alone.result
            &&& at <= alone.next <= tokens.len()
            &&& alone.next < tokens.len() ==> {
                &&& depth > 0
                &&& at < alone.next
                &&& inside.next == alone.next + 1
                &&& nests_below_limit(tokens, alone.next, (depth - 1) as nat)
            }
            &&& alone.next == tokens.len() ==> {
                ||| inside.next == tokens.len() + 1 && depth > 0
                ||| inside.next == tokens.len() + 2
            }
        }),
    decreases tokens.len() - at,
{
    let wrapped = parenthesized(tokens);
    let close = Ok::<TokenView, LexerError>(TokenView::CloseParen);
    assert(wrapped.len() == tokens.len() + 2);
    assert(wrapped[tokens.len() as int + 1] == close);
    if at < tokens.len() {
        assert(wrapped[at + 1] == tokens[at]);
        match tokens[at] {
            Err(e) => {},
            Ok(TokenView::AccessToken(value)) => {
                lemma_accepted_inside_parentheses(
                    tokens,
                    at + 1,
                    scope.append_access_token(value),
                    depth,
                );
            },
            Ok(TokenView::And) => {
                let with_operator = scope.set_operator(Operator::Conjunction)->Ok_0;
                lemma_accepted_inside_parentheses(tokens, at + 1, with_operator, depth);
            },
            Ok(TokenView::Or) => {
                let with_operator = scope.set_operator(Operator::Disjunction)->Ok_0;
                lemma_accepted_inside_parentheses(tokens, at + 1, with_operator, depth);
            },
            Ok(TokenView::CloseParen) => {},
            Ok(TokenView::OpenParen) => {
                let alone_inner = parse_scope(tokens, at + 1, ScopeView::empty(), depth + 1);
                let inside_inner = parse_scope(wrapped, at + 2, ScopeView::empty(), depth + 2);
                lemma_parse_scope_bounds(tokens, at + 1, ScopeView::empty(), depth + 1);
                lemma_accepted_inside_parentheses(tokens, at + 1, ScopeView::empty(), depth + 1);
                let node = alone_inner.result->Ok_0;
                let found = scope.append_node(node);
                if alone_inner.next < tokens.len() {
                    lemma_accepted_inside_parentheses(tokens, alone_inner.next, found, depth);
                } else {
                    assert(parse_scope(tokens, alone_inner.next, found, depth).result
                        == found.build());
                    assert(parse_scope(wrapped, inside_inner.next, found, depth + 1).result
                        == found.build());
                }
            },
        }
    }
}

/// An expression that is accepted parses in one more pair of parentheses to
/// what it parses to without them, unless it is nested as deep as the limit
/// allows.
pub proof fn lemma_parentheses_round_accepted(tokens: Seq<LexItem>)
    requires
        nests_below_limit(tokens, 0, 0),
        parse_scope(tokens, 0, ScopeView::empty(), 0).result is Ok,
    ensures
        parse_scope(parenthesized(tokens), 0, ScopeView::empty(), 0).result == parse_scope(
            tokens,
            0,
            ScopeView::empty(),
            0,
        ).result,
{
    let wrapped = parenthesized(tokens);
    assert(wrapped.len() == tokens.len() + 2);
    assert(wrapped[0] == Ok::<TokenView, LexerError>(TokenView::OpenParen));
    lemma_accepted_inside_parentheses(tokens, 0, ScopeView::empty(), 0);
    let inside = parse_scope(wrapped, 1, ScopeView::empty(), 1);
    let alone = parse_scope(tokens, 0, ScopeView::empty(), 0);
    let node = alone.result->Ok_0;
    let outer = ScopeView::empty().append_node(node);
    assert(inside.next == wrapped.len());
    assert(outer.nodes.len() == 1);
    assert(outer.access_tokens.len() == 0);
    assert(outer.nodes[0] == node);
    assert(parse_scope(wrapped, wrapped.len() as int, outer, 0).result == outer.build());
}

/// The text of an expression that is accepted parses in one more pair of
/// parentheses to what it parses to without them, if each of its quoted
/// tokens has its closing quote and it is not nested as deep as the limit
/// allows.
pub proof fn lemma_accepted_text_parses_alike_in_parentheses(text: Seq<char>)
    requires
        is_closed(text),
        nests_below_limit(lex(text, 0), 0, 0),
        parse_text(text) is Ok,
    ensures
        parse_text(seq!['('] + text + seq![')']) == parse_text(text),
{
    let tokens = lex(text, 0);
    lemma_accepted_is_read_to_the_end(tokens, 0, ScopeView::empty());
    assert(is_error_free(tokens));
    lemma_lex_in_parentheses(text);
    assert(lex(seq!['('] + text + seq![')'], 0) == parenthesized(tokens));
    lemma_parentheses_round_accepted(tokens);
}

} // verus!
