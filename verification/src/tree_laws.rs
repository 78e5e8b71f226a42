//! What holds of the tree that an accepted input is parsed to: it has no
//! composite of fewer than two children, and its access tokens are those
//! of the input.

use vstd::prelude::*;
use crate::authorization_expression::Expression;
use crate::lexer::LexItem;
use crate::lexer::LexerError;
use crate::lexer::Operator;
use crate::lexer::TokenView;
use crate::parser::lemma_parse_scope_bounds;
use crate::parser::parse_scope;
use crate::parser::ScopeView;
use crate::parser::MAX_NESTING_DEPTH;
use crate::parser_laws::lemma_accepted_is_read_to_the_end;

verus! {

/// Whether each composite of the expression has two children at least.
pub open spec fn is_well_built(e: Expression) -> bool
    decreases e,
{
    match e {
        Expression::ConjunctionOf(children) => {
            &&& children.len() >= 2
            &&& forall|i: int| 0 <= i < children.len() ==> is_well_built(#[trigger] children[i])
        },
        Expression::DisjunctionOf(children) => {
            &&& children.len() >= 2
            &&& forall|i: int| 0 <= i < children.len() ==> is_well_built(#[trigger] children[i])
        },
        _ => true,
    }
}

/// Whether the access token `value` stands somewhere in the expression.
pub open spec fn has_leaf(e: Expression, value: Seq<char>) -> bool
    decreases e,
{
    match e {
        Expression::Nil => false,
        Expression::AccessToken(token) => token == value,
        Expression::ConjunctionOf(children) => exists|i: int|
            0 <= i < children.len() && has_leaf(#[trigger] children[i], value),
        Expression::DisjunctionOf(children) => exists|i: int|
            0 <= i < children.len() && has_leaf(#[trigger] children[i], value),
    }
}

/// Whether the access token `value` was found in the scope, or stands in a
/// sub-expression that was.
pub open spec fn scope_has(scope: ScopeView, value: Seq<char>) -> bool {
    ||| scope.access_tokens.contains(value)
    ||| exists|j: int| 0 <= j < scope.nodes.len() && has_leaf(#[trigger] scope.nodes[j], value)
}

/// Whether the access token `value` is one of the tokens from index `from`
/// up to index `to`.
pub open spec fn occurs(tokens: Seq<LexItem>, from: int, to: int, value: Seq<char>) -> bool {
    exists|k: int|
        from <= k < to && 0 <= k < tokens.len() && (#[trigger] tokens[k]) == Ok::<
            TokenView,
            LexerError,
        >(TokenView::AccessToken(value))
}

/// Whether each sub-expression that was found in the scope is well built.
pub open spec fn holds_well_built(scope: ScopeView) -> bool {
    forall|j: int| 0 <= j < scope.nodes.len() ==> is_well_built(#[trigger] scope.nodes[j])
}

/// What a scope of well-built sub-expressions builds is well built.
pub proof fn lemma_build_is_well_built(scope: ScopeView)
    requires
        holds_well_built(scope),
        scope.build() is Ok,
    ensures
        is_well_built(scope.build()->Ok_0),
{
    let children = scope.children();
    assert forall|i: int| 0 <= i < children.len() implies is_well_built(
        #[trigger] children[i],
    ) by {
        if i >= scope.access_tokens.len() {
            let j = scope.nodes.len() - 1 - (i - scope.access_tokens.len());
            assert(is_well_built(scope.nodes[j]));
        }
    }
    if scope.nodes.len() == 1 && scope.access_tokens.len() == 0 {
        assert(is_well_built(scope.nodes[0]));
    }
}

/// What a scope is parsed to is well built, if what was found in it before
/// is.
pub proof fn lemma_parsed_scope_is_well_built(
    tokens: Seq<LexItem>,
    at: int,
    scope: ScopeView,
    depth: nat,
)
    requires
        0 <= at <= tokens.len(),
        holds_well_built(scope),
        parse_scope(tokens, at, scope, depth).result is Ok,
    ensures
        is_well_built(parse_scope(tokens, at, scope, depth).result->Ok_0),
    decreases tokens.len() - at,
{
    if at < tokens.len() {
        match tokens[at] {
            Err(e) => {},
            Ok(TokenView::AccessToken(value)) => {
                lemma_parsed_scope_is_well_built(
                    tokens,
                    at + 1,
                    scope.append_access_token(value),
                    depth,
                );
            },
            Ok(TokenView::And) => {
                let with_operator = scope.set_operator(Operator::Conjunction)->Ok_0;
                lemma_parsed_scope_is_well_built(tokens, at + 1, with_operator, depth);
            },
            Ok(TokenView::Or) => {
                let with_operator = scope.set_operator(Operator::Disjunction)->Ok_0;
                lemma_parsed_scope_is_well_built(tokens, at + 1, with_operator, depth);
            },
            Ok(TokenView::CloseParen) => {
                lemma_build_is_well_built(scope);
            },
            Ok(TokenView::OpenParen) => {
                if depth < MAX_NESTING_DEPTH {
                    let inner = parse_scope(tokens, at + 1, ScopeView::empty(), depth + 1);
                    lemma_parse_scope_bounds(tokens, at + 1, ScopeView::empty(), depth + 1);
                    lemma_parsed_scope_is_well_built(
                        tokens,
                        at + 1,
                        ScopeView::empty(),
                        depth + 1,
                    );
                    let node = inner.result->Ok_0;
                    let found = scope.append_node(node);
                    assert forall|j: int| 0 <= j < found.nodes.len() implies is_well_built(
                        #[trigger] found.nodes[j],
                    ) by {
                        if j < scope.nodes.len() {
                            assert(found.nodes[j] == scope.nodes[j]);
                        }
                    }
                    lemma_parsed_scope_is_well_built(tokens, inner.next, found, depth);
                }
            },
        }
    } else {
        lemma_build_is_well_built(scope);
    }
}

/// In the tree that an input is parsed to, each composite has two children
/// at least.
pub proof fn lemma_parsed_tree_is_well_built(tokens: Seq<LexItem>)
    requires
        parse_scope(tokens, 0, ScopeView::empty(), 0).result is Ok,
    ensures
        is_well_built(parse_scope(tokens, 0, ScopeView::empty(), 0).result->Ok_0),
{
    lemma_parsed_scope_is_well_built(tokens, 0, ScopeView::empty(), 0);
}

/// An access token stands among the children that a scope builds exactly if
/// the scope has it.
pub proof fn lemma_children_leaves(scope: ScopeView, value: Seq<char>)
    ensures
        scope_has(scope, value) <==> exists|i: int|
            0 <= i < scope.children().len() && has_leaf(#[trigger] scope.children()[i], value),
{
    let children = scope.children();
    let labels = scope.access_tokens;
    let nodes = scope.nodes;
    if labels.contains(value) {
        let k = choose|k: int| 0 <= k < labels.len() && labels[k] == value;
        let i = labels.len() - 1 - k;
        assert(children[i] == Expression::AccessToken(labels[k]));
        assert(has_leaf(children[i], value));
    }
    if exists|j: int| 0 <= j < nodes.len() && has_leaf(#[trigger] nodes[j], value) {
        let j = choose|j: int| 0 <= j < nodes.len() && has_leaf(#[trigger] nodes[j], value);
        let i = labels.len() + (nodes.len() - 1 - j);
        assert(children[i] == nodes[j]);
        assert(has_leaf(children[i], value));
    }
    if exists|i: int| 0 <= i < children.len() && has_leaf(#[trigger] children[i], value) {
        let i = choose|i: int| 0 <= i < children.len() && has_leaf(#[trigger] children[i], value);
        if i < labels.len() {
            let k = labels.len() - 1 - i;
            assert(labels[k] == value);
            assert(labels.contains(value));
        } else {
            let j = nodes.len() - 1 - (i - labels.len());
            assert(has_leaf(nodes[j], value));
        }
    }
}

/// An access token stands in what a scope builds exactly if the scope has
/// it.
pub proof fn lemma_build_leaves(scope: ScopeView, value: Seq<char>)
    requires
        scope.build() is Ok,
    ensures
        has_leaf(scope.build()->Ok_0, value) <==> scope_has(scope, value),
{
    lemma_children_leaves(scope, value);
    let labels = scope.access_tokens;
    let nodes = scope.nodes;
    if labels.len() == 0 && nodes.len() == 0 {
    } else if labels.len() == 1 && nodes.len() == 0 {
        if labels.contains(value) {
            assert(labels[0] == value);
        }
        if labels[0] == value {
            assert(labels.contains(value));
        }
    } else if nodes.len() == 1 && labels.len() == 0 {
        if has_leaf(nodes[0], value) {
            assert(scope_has(scope, value));
        }
    } else {
        match scope.operator {
            Some(Operator::Conjunction) => {
                assert(scope.build()->Ok_0->ConjunctionOf_0 == scope.children());
            },
            Some(Operator::Disjunction) => {
                assert(scope.build()->Ok_0->DisjunctionOf_0 == scope.children());
            },
            None => {},
        }
    }
}

/// An access token stands in what a scope is parsed to exactly if the scope
/// had it before, or it is one of the tokens that were taken for the scope.
pub proof fn lemma_parsed_scope_leaves(
    tokens: Seq<LexItem>,
    at: int,
    scope: ScopeView,
    depth: nat,
    value: Seq<char>,
)
    requires
        0 <= at <= tokens.len(),
        parse_scope(tokens, at, scope, depth).result is Ok,
    ensures
        ({
            let parsed = parse_scope(tokens, at, scope, depth);
            &&& at <= parsed.next <= tokens.len()
            &&& has_leaf(parsed.result->Ok_0, value) <==> (scope_has(scope, value) || occurs(
                tokens,
                at,
                parsed.next,
                value,
            ))
        }),
    decreases tokens.len() - at,
{
    let parsed = parse_scope(tokens, at, scope, depth);
    lemma_parse_scope_bounds(tokens, at, scope, depth);
    if at < tokens.len() {
        match tokens[at] {
            Err(e) => {},
            Ok(TokenView::AccessToken(token)) => {
                let found = scope.append_access_token(token);
                lemma_parsed_scope_leaves(tokens, at + 1, found, depth, value);
                if scope.access_tokens.contains(value) {
                    let k = choose|k: int|
                        0 <= k < scope.access_tokens.len() && scope.access_tokens[k] == value;
                    assert(found.access_tokens[k] == value);
                }
                if token == value {
                    assert(found.access_tokens[scope.access_tokens.len() as int] == value);
                    assert(occurs(tokens, at, parsed.next, value));
                }
                if found.access_tokens.contains(value) {
                    let k = choose|k: int|
                        0 <= k < found.access_tokens.len() && found.access_tokens[k] == value;
                    if k < scope.access_tokens.len() {
                        assert(scope.access_tokens[k] == value);
                    }
                }
                lemma_occurs_after(tokens, at, parsed.next, value);
            },
            Ok(TokenView::And) => {
                let with_operator = scope.set_operator(Operator::Conjunction)->Ok_0;
                lemma_parsed_scope_leaves(tokens, at + 1, with_operator, depth, value);
                lemma_occurs_after(tokens, at, parsed.next, value);
            },
            Ok(TokenView::Or) => {
                let with_operator = scope.set_operator(Operator::Disjunction)->Ok_0;
                lemma_parsed_scope_leaves(tokens, at + 1, with_operator, depth, value);
                lemma_occurs_after(tokens, at, parsed.next, value);
            },
            Ok(TokenView::CloseParen) => {
                lemma_build_leaves(scope, value);
                lemma_occurs_after(tokens, at, parsed.next, value);
            },
            Ok(TokenView::OpenParen) => {
                if depth < MAX_NESTING_DEPTH {
                    let inner = parse_scope(tokens, at + 1, ScopeView::empty(), depth + 1);
                    lemma_parse_scope_bounds(tokens, at + 1, ScopeView::empty(), depth + 1);
                    lemma_parsed_scope_leaves(
                        tokens,
                        at + 1,
                        ScopeView::empty(),
                        depth + 1,
                        value,
                    );
                    let node = inner.result->Ok_0;
                    let found = scope.append_node(node);
                    lemma_parsed_scope_leaves(tokens, inner.next, found, depth, value);
                    assert(!scope_has(ScopeView::empty(), value));
                    if exists|j: int|
                        0 <= j < scope.nodes.len() && has_leaf(#[trigger] scope.nodes[j], value) {
                        let j = choose|j: int|
                            0 <= j < scope.nodes.len() && has_leaf(
                                #[trigger] scope.nodes[j],
                                value,
                            );
                        assert(found.nodes[j] == scope.nodes[j]);
                        assert(has_leaf(found.nodes[j], value));
                    }
                    if has_leaf(node, value) {
                        assert(found.nodes[scope.nodes.len() as int] == node);
                    }
                    if exists|j: int|
                        0 <= j < found.nodes.len() && has_leaf(#[trigger] found.nodes[j], value) {
                        let j = choose|j: int|
                            0 <= j < found.nodes.len() && has_leaf(
                                #[trigger] found.nodes[j],
                                value,
                            );
                        if j < scope.nodes.len() {
                            assert(has_leaf(scope.nodes[j], value));
                        }
                    }
                    lemma_occurs_after(tokens, at, inner.next, value);
                    lemma_occurs_in_parts(tokens, at, inner.next, parsed.next, value);
                }
            },
        }
    } else {
        lemma_build_leaves(scope, value);
    }
}

/// An access token is one of the tokens from an index on if it is the token
/// at that index or one of those after it.
pub proof fn lemma_occurs_after(tokens: Seq<LexItem>, from: int, to: int, value: Seq<char>)
    requires
        0 <= from < to <= tokens.len(),
    ensures
        occurs(tokens, from, to, value) <==> (tokens[from] == Ok::<TokenView, LexerError>(
            TokenView::AccessToken(value),
        ) || occurs(tokens, from + 1, to, value)),
{
    if occurs(tokens, from + 1, to, value) {
        let k = choose|k: int|
            from + 1 <= k < to && 0 <= k < tokens.len() && (#[trigger] tokens[k]) == Ok::<
                TokenView,
                LexerError,
            >(TokenView::AccessToken(value));
        assert(from <= k < to);
    }
}

/// An access token is one of the tokens of a range if it is one of those of
/// its first part or of its second part.
pub proof fn lemma_occurs_in_parts(
    tokens: Seq<LexItem>,
    from: int,
    middle: int,
    to: int,
    value: Seq<char>,
)
    requires
        0 <= from <= middle <= to <= tokens.len(),
    ensures
        occurs(tokens, from, to, value) <==> (occurs(tokens, from, middle, value) || occurs(
            tokens,
            middle,
            to,
            value,
        )),
{
    if occurs(tokens, from, middle, value) {
        let k = choose|k: int|
            from <= k < middle && 0 <= k < tokens.len() && (#[trigger] tokens[k]) == Ok::<
                TokenView,
                LexerError,
            >(TokenView::AccessToken(value));
        assert(from <= k < to);
    }
    if occurs(tokens, middle, to, value) {
        let k = choose|k: int|
            middle <= k < to && 0 <= k < tokens.len() && (#[trigger] tokens[k]) == Ok::<
                TokenView,
                LexerError,
            >(TokenView::AccessToken(value));
        assert(from <= k < to);
    }
}

/// The access tokens of the tree that an input is parsed to are the access
/// tokens of the input: none is lost and none is made up.
pub proof fn lemma_parsed_tree_holds_the_tokens(tokens: Seq<LexItem>, value: Seq<char>)
    requires
        parse_scope(tokens, 0, ScopeView::empty(), 0).result is Ok,
    ensures
        has_leaf(parse_scope(tokens, 0, ScopeView::empty(), 0).result->Ok_0, value) <==> occurs(
            tokens,
            0,
            tokens.len() as int,
            value,
        ),
{
    lemma_parsed_scope_leaves(tokens, 0, ScopeView::empty(), 0, value);
    lemma_accepted_is_read_to_the_end(tokens, 0, ScopeView::empty());
    assert(!scope_has(ScopeView::empty(), value));
}

} // verus!
