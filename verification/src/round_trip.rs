//! The text of an expression parses back: to a tree with the same members
//! in each composite, and so, for an expression in normal form, to a tree
//! with that normal form.

use vstd::prelude::*;
use crate::authorization_expression::ascending;
use crate::authorization_expression::needs_parentheses;
use crate::authorization_expression::sorted_normal_forms;
use crate::authorization_expression::Expression;
use crate::laws::lemma_sorted_normal_forms_ascending;
use crate::laws::lemma_sorted_normal_forms_members;
use crate::authorization_expression::joined;
use crate::authorization_expression::separator;
use crate::lexer::first_lexeme;
use crate::lexer::is_unquoted_char;
use crate::lexer::lemma_first_lexeme_bounds;
use crate::lexer::lex;
use crate::lexer::unquoted_end;
use crate::lexer::LexItem;
use crate::lexer::Operator;
use crate::lexer::TokenView;
use crate::lexer_laws::is_closed;
use crate::lexer_laws::lemma_lex_extends;
use crate::order_laws::lemma_ascending_unique;
use crate::laws::lemma_normal_form_is_normal;
use crate::parser::parse_scope;
use crate::parser::parse_text;
use crate::parser::Parsed;
use crate::parser::ParserErrorView;
use crate::parser::ScopeView;
use crate::parser::MAX_NESTING_DEPTH;

verus! {

/// Whether the characters can stand as an unquoted access token: there is
/// one at least, and each is a character of unquoted tokens.
pub open spec fn is_plain(value: Seq<char>) -> bool {
    value.len() > 0 && forall|i: int| 0 <= i < value.len() ==> is_unquoted_char(#[trigger] value[i])
}

/// Whether the text of the expression says what the expression is, when it
/// stands inside `depth` open scopes: its access tokens can stand unquoted,
/// each of its composites has two children at least, each child of a
/// composite is an access token or a composite of the other kind, and no
/// composite is nested deeper than the limit.
pub open spec fn is_writable(e: Expression, depth: nat) -> bool
    decreases e, 0int,
{
    match e {
        Expression::Nil => false,
        Expression::AccessToken(value) => is_plain(value),
        Expression::ConjunctionOf(children) => children.len() >= 2 && operands_writable(
            children,
            children.len() as int,
            Operator::Conjunction,
            depth,
        ),
        Expression::DisjunctionOf(children) => children.len() >= 2 && operands_writable(
            children,
            children.len() as int,
            Operator::Disjunction,
            depth,
        ),
    }
}

/// Whether the first `count` of the children of a composite with the
/// operator `parent`, which stands inside `depth` open scopes, are access
/// tokens that can stand unquoted or writable composites of the other kind.
pub open spec fn operands_writable(
    children: Seq<Expression>,
    count: int,
    parent: Operator,
    depth: nat,
) -> bool
    decreases children, count,
{
    if count <= 0 || count > children.len() {
        true
    } else {
        &&& operands_writable(children, count - 1, parent, depth)
        &&& match children[count - 1] {
            Expression::AccessToken(value) => is_plain(value),
            child => needs_parentheses(child, parent) && depth < MAX_NESTING_DEPTH && is_writable(
                child,
                depth + 1,
            ),
        }
    }
}

/// The tree that the text of the expression parses to: in each composite
/// the access tokens come first, the last first, and then the composites,
/// the last first.
pub open spec fn parsed(e: Expression) -> Expression
    decreases e, 0int,
{
    match e {
        Expression::ConjunctionOf(children) => Expression::ConjunctionOf(
            scope_after(children, children.len() as int, Operator::Conjunction).children(),
        ),
        Expression::DisjunctionOf(children) => Expression::DisjunctionOf(
            scope_after(children, children.len() as int, Operator::Disjunction).children(),
        ),
        _ => e,
    }
}

/// The scope after the first `count` of the children of a composite with the
/// operator `parent` were parsed into it.
pub open spec fn scope_after(children: Seq<Expression>, count: int, parent: Operator) -> ScopeView
    decreases children, count,
{
    if count <= 0 || count > children.len() {
        ScopeView::empty()
    } else {
        let before = scope_after(children, count - 1, parent);
        let with_operator = if count >= 2 {
            ScopeView { operator: Some(parent), ..before }
        } else {
            before
        };
        match children[count - 1] {
            Expression::AccessToken(value) => with_operator.append_access_token(value),
            child => with_operator.append_node(parsed(child)),
        }
    }
}

/// Each of the first children of a composite is writable if they all are.
pub proof fn lemma_operand_is_writable(
    children: Seq<Expression>,
    count: int,
    parent: Operator,
    depth: nat,
    i: int,
)
    requires
        0 <= i < count <= children.len(),
        operands_writable(children, count, parent, depth),
    ensures
        operands_writable(children, i + 1, parent, depth),
        match children[i] {
            Expression::AccessToken(value) => is_plain(value),
            child => needs_parentheses(child, parent) && depth < MAX_NESTING_DEPTH && is_writable(
                child,
                depth + 1,
            ),
        },
    decreases count - i,
{
    if i + 1 < count {
        lemma_operand_is_writable(children, count - 1, parent, depth, i);
    }
}

/// A scope with one more access token holds what it held and that token.
pub proof fn lemma_children_with_token(scope: ScopeView, value: Seq<char>, x: Expression)
    ensures
        scope.append_access_token(value).children().contains(x) <==> (x
            == Expression::AccessToken(value) || scope.children().contains(x)),
{
    let before = scope.children();
    let after = scope.append_access_token(value).children();
    let labels = scope.access_tokens;
    assert(after.len() == before.len() + 1);
    assert(after[0] == Expression::AccessToken(value));
    assert forall|k: int| 0 <= k < before.len() implies #[trigger] after[k + 1] == before[k] by {
        if k < labels.len() {
            assert(labels.push(value)[labels.len() - 1 - k] == labels[labels.len() - 1 - k]);
        }
    }
    if after.contains(x) {
        let k = choose|k: int| 0 <= k < after.len() && after[k] == x;
        if k > 0 {
            assert(after[(k - 1) + 1] == before[k - 1]);
            assert(before.contains(x));
        }
    }
    if before.contains(x) {
        let k = choose|k: int| 0 <= k < before.len() && before[k] == x;
        assert(after[k + 1] == x);
    }
}

/// A scope with one more sub-expression holds what it held and that
/// sub-expression.
pub proof fn lemma_children_with_node(scope: ScopeView, node: Expression, x: Expression)
    ensures
        scope.append_node(node).children().contains(x) <==> (x == node
            || scope.children().contains(x)),
{
    let before = scope.children();
    let after = scope.append_node(node).children();
    let labels = scope.access_tokens;
    let nodes = scope.nodes;
    assert(after.len() == before.len() + 1);
    assert(after[labels.len() as int] == node);
    assert forall|k: int| 0 <= k < before.len() implies before[k] == (if k < labels.len() {
        #[trigger] after[k]
    } else {
        after[k + 1]
    }) by {
        if k >= labels.len() {
            let j = nodes.len() - 1 - (k - labels.len());
            assert(nodes.push(node)[j] == nodes[j]);
        }
    }
    if after.contains(x) {
        let k = choose|k: int| 0 <= k < after.len() && after[k] == x;
        if k < labels.len() {
            assert(before[k] == after[k]);
            assert(before.contains(x));
        } else if k > labels.len() {
            assert(before[k - 1] == after[(k - 1) + 1]);
            assert(before.contains(x));
        }
    }
    if before.contains(x) {
        let k = choose|k: int| 0 <= k < before.len() && before[k] == x;
        if k < labels.len() {
            assert(after[k] == x);
        } else {
            assert(after[k + 1] == x);
        }
    }
}

/// What a scope holds does not depend on its operator.
pub proof fn lemma_children_with_operator(scope: ScopeView, operator: Option<Operator>)
    ensures
        (ScopeView { operator, ..scope }).children() == scope.children(),
{
    assert((ScopeView { operator, ..scope }).children() =~= scope.children());
}

/// The scope into which the children of a composite were parsed holds what
/// each of them parses to, and nothing else.
pub proof fn lemma_scope_after_members(
    children: Seq<Expression>,
    count: int,
    parent: Operator,
    x: Expression,
)
    requires
        0 <= count <= children.len(),
    ensures
        scope_after(children, count, parent).children().contains(x) <==> exists|i: int|
            0 <= i < count && parsed(#[trigger] children[i]) == x,
    decreases count,
{
    if count == 0 {
        assert(scope_after(children, count, parent).children() =~= Seq::<Expression>::empty());
    } else {
        let before = scope_after(children, count - 1, parent);
        let with_operator = if count >= 2 {
            ScopeView { operator: Some(parent), ..before }
        } else {
            before
        };
        lemma_scope_after_members(children, count - 1, parent, x);
        lemma_children_with_operator(before, Some(parent));
        assert(with_operator.children() == before.children());
        let last = children[count - 1];
        match last {
            Expression::AccessToken(value) => {
                lemma_children_with_token(with_operator, value, x);
            },
            child => {
                lemma_children_with_node(with_operator, parsed(child), x);
            },
        }
        if before.children().contains(x) {
            let i = choose|i: int| 0 <= i < count - 1 && parsed(#[trigger] children[i]) == x;
            assert(0 <= i < count && parsed(children[i]) == x);
        }
        if exists|i: int| 0 <= i < count && parsed(#[trigger] children[i]) == x {
            let i = choose|i: int| 0 <= i < count && parsed(#[trigger] children[i]) == x;
            if i < count - 1 {
                assert(0 <= i < count - 1 && parsed(children[i]) == x);
            }
        }
    }
}

/// What the text of a writable expression in normal form parses to has the
/// expression as its normal form.
pub proof fn lemma_parsed_normal_form(e: Expression, depth: nat)
    requires
        e.is_normal(),
        is_writable(e, depth),
    ensures
        parsed(e).normal_form() == e,
    decreases e, 1int,
{
    match e {
        Expression::ConjunctionOf(children) => {
            lemma_parsed_children(children, Operator::Conjunction, depth);
        },
        Expression::DisjunctionOf(children) => {
            lemma_parsed_children(children, Operator::Disjunction, depth);
        },
        _ => {},
    }
}

/// The same of the children of a composite.
proof fn lemma_parsed_children(children: Seq<Expression>, parent: Operator, depth: nat)
    requires
        ascending(children),
        forall|i: int| 0 <= i < children.len() ==> (#[trigger] children[i]).is_normal(),
        operands_writable(children, children.len() as int, parent, depth),
    ensures
        sorted_normal_forms(
            scope_after(children, children.len() as int, parent).children(),
            0,
        ) == children,
    decreases children, 0int,
{
    let held = scope_after(children, children.len() as int, parent).children();
    let sorted = sorted_normal_forms(held, 0);
    lemma_sorted_normal_forms_ascending(held, 0);
    assert forall|i: int| 0 <= i < children.len() implies parsed(
        #[trigger] children[i],
    ).normal_form() == children[i] by {
        lemma_operand_is_writable(children, children.len() as int, parent, depth, i);
        assert(children[i].is_normal());
        match children[i] {
            Expression::AccessToken(value) => {},
            child => {
                lemma_parsed_normal_form(child, depth + 1);
            },
        }
    }
    assert forall|e: Expression| sorted.contains(e) <==> children.contains(e) by {
        lemma_sorted_normal_forms_members(held, 0, e);
        if sorted.contains(e) {
            let k = choose|k: int| 0 <= k < held.len() && (#[trigger] held[k]).normal_form() == e;
            assert(held.contains(held[k]));
            lemma_scope_after_members(children, children.len() as int, parent, held[k]);
            let i = choose|i: int|
                0 <= i < children.len() && parsed(#[trigger] children[i]) == held[k];
            assert(children[i] == e);
        }
        if children.contains(e) {
            let i = choose|i: int| 0 <= i < children.len() && children[i] == e;
            let shape = parsed(children[i]);
            lemma_scope_after_members(children, children.len() as int, parent, shape);
            assert(held.contains(shape));
            let k = choose|k: int| 0 <= k < held.len() && held[k] == shape;
            assert(held[k].normal_form() == e);
        }
    }
    lemma_ascending_unique(sorted, children);
}

/// The token of one of the four signs.
pub open spec fn sign_token(sign: char) -> LexItem {
    if sign == '(' {
        Ok(TokenView::OpenParen)
    } else if sign == ')' {
        Ok(TokenView::CloseParen)
    } else if sign == '&' {
        Ok(TokenView::And)
    } else {
        Ok(TokenView::Or)
    }
}

/// The tokens of the text of an expression.
pub open spec fn tokens_of(e: Expression) -> Seq<LexItem>
    decreases e, 0int,
{
    match e {
        Expression::Nil => Seq::empty(),
        Expression::AccessToken(value) => seq![Ok(TokenView::AccessToken(value))],
        Expression::ConjunctionOf(children) => joined_tokens(
            children,
            children.len() as int,
            Operator::Conjunction,
        ),
        Expression::DisjunctionOf(children) => joined_tokens(
            children,
            children.len() as int,
            Operator::Disjunction,
        ),
    }
}

/// The tokens of one child of a composite with the operator `parent`.
pub open spec fn operand_tokens(child: Expression, parent: Operator) -> Seq<LexItem>
    decreases child, 1int,
{
    if needs_parentheses(child, parent) {
        seq![sign_token('(')] + tokens_of(child) + seq![sign_token(')')]
    } else {
        tokens_of(child)
    }
}

/// The tokens of the first `count` children of a composite with the operator
/// `parent`, with the operator between each two of them.
pub open spec fn joined_tokens(children: Seq<Expression>, count: int, parent: Operator) -> Seq<
    LexItem,
>
    decreases children, count,
{
    if count <= 0 || count > children.len() {
        Seq::empty()
    } else if count == 1 {
        operand_tokens(children[0], parent)
    } else {
        joined_tokens(children, count - 1, parent) + seq![sign_token(separator(parent))]
            + operand_tokens(children[count - 1], parent)
    }
}

/// The text of one child of a composite with the operator `parent`.
pub open spec fn operand_text(child: Expression, parent: Operator) -> Seq<char> {
    if needs_parentheses(child, parent) {
        seq!['('] + child.text() + seq![')']
    } else {
        child.text()
    }
}

/// Whether no character of the text is a quote.
pub open spec fn has_no_quote(s: Seq<char>) -> bool {
    forall|i: int| 0 <= i < s.len() ==> (#[trigger] s[i]) != '"'
}

/// Two texts without a quote make a text without a quote.
pub proof fn lemma_no_quote_in_both(a: Seq<char>, b: Seq<char>)
    requires
        has_no_quote(a),
        has_no_quote(b),
    ensures
        has_no_quote(a + b),
{
    let both = a + b;
    assert forall|i: int| 0 <= i < both.len() implies (#[trigger] both[i]) != '"' by {
        if i < a.len() {
            assert(both[i] == a[i]);
        } else {
            assert(both[i] == b[i - a.len()]);
        }
    }
}

/// In a text without a quote no quoted token is left open.
pub proof fn lemma_quoteless_is_closed(s: Seq<char>)
    requires
        has_no_quote(s),
    ensures
        is_closed(s),
    decreases s.len(),
{
    if s.len() > 0 {
        lemma_first_lexeme_bounds(s, 0);
        let taken = first_lexeme(s, 0).len as int;
        let rest = s.skip(taken);
        assert forall|i: int| 0 <= i < rest.len() implies (#[trigger] rest[i]) != '"' by {
            assert(rest[i] == s[i + taken]);
        }
        lemma_quoteless_is_closed(rest);
        assert(s[0] != '"');
    }
}

/// An unquoted token that starts in characters of unquoted tokens goes on
/// to their end.
pub proof fn lemma_unquoted_end_of_plain(value: Seq<char>, i: int)
    requires
        is_plain(value),
        0 <= i <= value.len(),
    ensures
        unquoted_end(value, i) == value.len(),
    decreases value.len() - i,
{
    if i < value.len() {
        assert(is_unquoted_char(value[i]));
        lemma_unquoted_end_of_plain(value, i + 1);
    }
}

/// Characters of unquoted tokens are lexed as one access token.
pub proof fn lemma_plain_is_one_token(value: Seq<char>, base: nat)
    requires
        is_plain(value),
    ensures
        lex(value, base) == seq![Ok::<TokenView, crate::lexer::LexerError>(TokenView::AccessToken(value))],
        has_no_quote(value),
{
    assert(is_unquoted_char(value[0]));
    lemma_unquoted_end_of_plain(value, 0);
    let first = first_lexeme(value, base);
    assert(value.take(value.len() as int) == value);
    assert(first.item == Ok::<TokenView, crate::lexer::LexerError>(TokenView::AccessToken(value)));
    assert(first.len == value.len());
    let rest = value.skip(first.len as int);
    assert(rest.len() == 0);
    assert(lex(rest, base + first.len) == Seq::<LexItem>::empty());
    assert(lex(value, base) == seq![first.item] + lex(rest, base + first.len));
    assert forall|i: int| 0 <= i < value.len() implies (#[trigger] value[i]) != '"' by {
        assert(is_unquoted_char(value[i]));
    }
}

/// One of the four signs is lexed as its token, whatever follows it.
pub proof fn lemma_sign_is_one_token(sign: char, rest: Seq<char>, base: nat)
    requires
        sign == '(' || sign == ')' || sign == '&' || sign == '|',
    ensures
        lex(seq![sign] + rest, base) == seq![sign_token(sign)] + lex(rest, base + 1),
{
    let s = seq![sign] + rest;
    assert(s[0] == sign);
    assert(s.skip(1) == rest);
    assert(first_lexeme(s, base).len == 1);
    assert(first_lexeme(s, base).item == sign_token(sign));
    assert(lex(s, base) == seq![first_lexeme(s, base).item] + lex(s.skip(1), base + 1));
}

/// The text of a writable expression has the tokens of the expression, and
/// no quote.
pub proof fn lemma_text_tokens(e: Expression, depth: nat, base: nat)
    requires
        is_writable(e, depth),
    ensures
        lex(e.text(), base) == tokens_of(e),
        has_no_quote(e.text()),
    decreases e, 0int,
{
    match e {
        Expression::ConjunctionOf(children) => {
            lemma_joined_tokens(
                children,
                children.len() as int,
                Operator::Conjunction,
                depth,
                base,
            );
        },
        Expression::DisjunctionOf(children) => {
            lemma_joined_tokens(
                children,
                children.len() as int,
                Operator::Disjunction,
                depth,
                base,
            );
        },
        Expression::AccessToken(value) => {
            lemma_plain_is_one_token(value, base);
        },
        Expression::Nil => {},
    }
}

/// The same of one child of a composite.
proof fn lemma_operand_tokens(
    children: Seq<Expression>,
    i: int,
    parent: Operator,
    depth: nat,
    base: nat,
)
    requires
        0 <= i < children.len(),
        operands_writable(children, i + 1, parent, depth),
    ensures
        lex(operand_text(children[i], parent), base) == operand_tokens(children[i], parent),
        has_no_quote(operand_text(children[i], parent)),
    decreases children, 0int, 0int,
{
    let child = children[i];
    match child {
        Expression::AccessToken(value) => {
            lemma_plain_is_one_token(value, base);
        },
        _ => {
            assert(needs_parentheses(child, parent));
            assert(is_writable(child, depth + 1));
            lemma_text_tokens(child, depth + 1, base + 1);
            let inner = child.text();
            let close = seq![')'];
            let after = (base + 1 + inner.len()) as nat;
            assert(operand_text(child, parent) == seq!['('] + (inner + close));
            lemma_sign_is_one_token('(', inner + close, base);
            lemma_quoteless_is_closed(inner);
            lemma_lex_extends(inner, close, base + 1);
            assert(close == close + Seq::<char>::empty());
            lemma_sign_is_one_token(')', Seq::empty(), after);
            assert(lex(Seq::<char>::empty(), after + 1) == Seq::<LexItem>::empty());
            assert(lex(close, after) == seq![sign_token(')')]);
            assert(operand_tokens(child, parent) == seq![sign_token('(')] + (tokens_of(child)
                + seq![sign_token(')')]));
            assert(has_no_quote(seq!['(']));
            assert(has_no_quote(close));
            lemma_no_quote_in_both(inner, close);
            lemma_no_quote_in_both(seq!['('], inner + close);
        },
    }
}

/// The same of the first children of a composite.
proof fn lemma_joined_tokens(
    children: Seq<Expression>,
    count: int,
    parent: Operator,
    depth: nat,
    base: nat,
)
    requires
        0 <= count <= children.len(),
        operands_writable(children, count, parent, depth),
    ensures
        lex(joined(children, count, parent), base) == joined_tokens(children, count, parent),
        has_no_quote(joined(children, count, parent)),
    decreases children, 1int, count,
{
    if count == 0 {
    } else if count == 1 {
        lemma_operand_tokens(children, 0, parent, depth, base);
        assert(joined(children, count, parent) == operand_text(children[0], parent));
    } else {
        let before = joined(children, count - 1, parent);
        let sign = seq![separator(parent)];
        let operand = operand_text(children[count - 1], parent);
        let after = (base + before.len()) as nat;
        lemma_joined_tokens(children, count - 1, parent, depth, base);
        lemma_operand_tokens(children, count - 1, parent, depth, after + 1);
        assert(joined(children, count, parent) == before + (sign + operand));
        lemma_quoteless_is_closed(before);
        assert((sign + operand)[0] == separator(parent));
        lemma_lex_extends(before, sign + operand, base);
        lemma_sign_is_one_token(separator(parent), operand, after);
        assert(joined_tokens(children, count, parent) == joined_tokens(
            children,
            count - 1,
            parent,
        ) + (seq![sign_token(separator(parent))] + operand_tokens(children[count - 1], parent)));
        assert(has_no_quote(sign));
        lemma_no_quote_in_both(sign, operand);
        lemma_no_quote_in_both(before, sign + operand);
    }
}

/// Whether the tokens of `part` stand in `tokens` from index `at` on.
pub open spec fn stands_at(tokens: Seq<LexItem>, at: int, part: Seq<LexItem>) -> bool {
    &&& 0 <= at
    &&& at + part.len() <= tokens.len()
    &&& tokens.subrange(at, at + part.len()) == part
}

/// The scope after `child` was parsed into it.
pub open spec fn with_operand(scope: ScopeView, child: Expression) -> ScopeView {
    match child {
        Expression::AccessToken(value) => scope.append_access_token(value),
        _ => scope.append_node(parsed(child)),
    }
}

/// The scope into which the first children of a composite were parsed holds
/// as many items as were parsed, and the operator once there are two.
pub proof fn lemma_scope_after_shape(children: Seq<Expression>, count: int, parent: Operator)
    requires
        0 <= count <= children.len(),
    ensures
        scope_after(children, count, parent).operator == (if count >= 2 {
            Some(parent)
        } else {
            None::<Operator>
        }),
        scope_after(children, count, parent).access_tokens.len() + scope_after(
            children,
            count,
            parent,
        ).nodes.len() == count,
    decreases count,
{
    if count > 0 {
        lemma_scope_after_shape(children, count - 1, parent);
    }
}

/// Where the tokens of a writable composite stand, and the tokens end after
/// them or, inside an open scope, go on with a closing parenthesis, a scope
/// that starts there is parsed to what the composite's text parses to.
pub proof fn lemma_composite_parses(e: Expression, depth: nat, tokens: Seq<LexItem>, at: int)
    requires
        is_writable(e, depth),
        e is ConjunctionOf || e is DisjunctionOf,
        stands_at(tokens, at, tokens_of(e)),
        at + tokens_of(e).len() == tokens.len() || (depth > 0 && tokens[at + tokens_of(e).len()]
            == sign_token(')')),
    ensures
        parse_scope(tokens, at, ScopeView::empty(), depth) == (Parsed {
            result: Ok(parsed(e)),
            next: if at + tokens_of(e).len() == tokens.len() {
                at + tokens_of(e).len()
            } else {
                at + tokens_of(e).len() + 1
            },
        }),
    decreases e, 0int,
{
    match e {
        Expression::ConjunctionOf(children) => {
            let count = children.len() as int;
            let end = at + tokens_of(e).len();
            lemma_operands_parse(children, count, Operator::Conjunction, depth, tokens, at);
            lemma_scope_after_shape(children, count, Operator::Conjunction);
            let scope = scope_after(children, count, Operator::Conjunction);
            assert(scope.build() == Ok::<Expression, ParserErrorView>(parsed(e)));
            assert(parse_scope(tokens, end, scope, depth).result == scope.build());
        },
        Expression::DisjunctionOf(children) => {
            let count = children.len() as int;
            let end = at + tokens_of(e).len();
            lemma_operands_parse(children, count, Operator::Disjunction, depth, tokens, at);
            lemma_scope_after_shape(children, count, Operator::Disjunction);
            let scope = scope_after(children, count, Operator::Disjunction);
            assert(scope.build() == Ok::<Expression, ParserErrorView>(parsed(e)));
            assert(parse_scope(tokens, end, scope, depth).result == scope.build());
        },
        _ => {},
    }
}

/// Where the tokens of one child of a composite stand, parsing takes them
/// and adds the child to the scope.
proof fn lemma_operand_parses(
    children: Seq<Expression>,
    i: int,
    parent: Operator,
    depth: nat,
    tokens: Seq<LexItem>,
    at: int,
    scope: ScopeView,
)
    requires
        0 <= i < children.len(),
        operands_writable(children, i + 1, parent, depth),
        stands_at(tokens, at, operand_tokens(children[i], parent)),
    ensures
        parse_scope(tokens, at, scope, depth) == parse_scope(
            tokens,
            at + operand_tokens(children[i], parent).len(),
            with_operand(scope, children[i]),
            depth,
        ),
    decreases children, 0int, 0int,
{
    let child = children[i];
    let part = operand_tokens(child, parent);
    assert(tokens.subrange(at, at + part.len())[0] == tokens[at]);
    match child {
        Expression::AccessToken(value) => {},
        _ => {
            assert(needs_parentheses(child, parent));
            assert(is_writable(child, depth + 1));
            let inner = tokens_of(child);
            let last = inner.len() as int + 1;
            assert(part.len() == inner.len() + 2);
            assert(part[0] == sign_token('('));
            assert(part[last] == sign_token(')'));
            assert(tokens.subrange(at, at + part.len())[last] == tokens[at + last]);
            assert(tokens.subrange(at + 1, at + 1 + inner.len()) =~= inner) by {
                assert forall|k: int| 0 <= k < inner.len() implies tokens[at + 1 + k]
                    == inner[k] by {
                    assert(tokens.subrange(at, at + part.len())[k + 1] == tokens[at + (k + 1)]);
                    assert(part[k + 1] == inner[k]);
                }
            }
            lemma_composite_parses(child, depth + 1, tokens, at + 1);
        },
    }
}

/// Where the tokens of the first children of a composite stand, parsing
/// takes them and adds the children to the scope.
proof fn lemma_operands_parse(
    children: Seq<Expression>,
    count: int,
    parent: Operator,
    depth: nat,
    tokens: Seq<LexItem>,
    at: int,
)
    requires
        1 <= count <= children.len(),
        operands_writable(children, count, parent, depth),
        stands_at(tokens, at, joined_tokens(children, count, parent)),
    ensures
        parse_scope(tokens, at, ScopeView::empty(), depth) == parse_scope(
            tokens,
            at + joined_tokens(children, count, parent).len(),
            scope_after(children, count, parent),
            depth,
        ),
    decreases children, 1int, count,
{
    if count == 1 {
        lemma_operand_parses(children, 0, parent, depth, tokens, at, ScopeView::empty());
    } else {
        let whole = joined_tokens(children, count, parent);
        let before = joined_tokens(children, count - 1, parent);
        let operand = operand_tokens(children[count - 1], parent);
        let sign = at + before.len();
        assert(whole == before + seq![sign_token(separator(parent))] + operand);
        assert(tokens.subrange(at, at + before.len()) =~= before) by {
            assert forall|k: int| 0 <= k < before.len() implies tokens[at + k] == before[k] by {
                assert(tokens.subrange(at, at + whole.len())[k] == tokens[at + k]);
                assert(whole[k] == before[k]);
            }
        }
        assert(tokens[sign] == sign_token(separator(parent))) by {
            assert(tokens.subrange(at, at + whole.len())[before.len() as int] == tokens[sign]);
            assert(whole[before.len() as int] == sign_token(separator(parent)));
        }
        assert(tokens.subrange(sign + 1, sign + 1 + operand.len()) =~= operand) by {
            assert forall|k: int| 0 <= k < operand.len() implies tokens[sign + 1 + k]
                == operand[k] by {
                assert(tokens.subrange(at, at + whole.len())[before.len() + 1 + k] == tokens[at
                    + (before.len() + 1 + k)]);
                assert(whole[before.len() + 1 + k] == operand[k]);
            }
        }
        lemma_operands_parse(children, count - 1, parent, depth, tokens, at);
        lemma_scope_after_shape(children, count - 1, parent);
        let found = scope_after(children, count - 1, parent);
        let with_operator = ScopeView { operator: Some(parent), ..found };
        assert(found.set_operator(parent) == Ok::<ScopeView, ParserErrorView>(with_operator));
        assert(parse_scope(tokens, sign, found, depth) == parse_scope(
            tokens,
            sign + 1,
            with_operator,
            depth,
        ));
        lemma_operand_parses(children, count - 1, parent, depth, tokens, sign + 1, with_operator);
        assert(scope_after(children, count, parent) == with_operand(
            with_operator,
            children[count - 1],
        ));
    }
}

/// The text of a writable expression, and that of the empty expression,
/// parses to a tree that holds in each composite what the expression holds
/// there: the access tokens first, and the last of each kind first.
pub proof fn lemma_text_parses_back(e: Expression)
    requires
        e is Nil || is_writable(e, 0),
    ensures
        parse_text(e.text()) == Ok::<Expression, ParserErrorView>(parsed(e)),
{
    let tokens = lex(e.text(), 0);
    match e {
        Expression::Nil => {
            assert(tokens == Seq::<LexItem>::empty());
        },
        Expression::AccessToken(value) => {
            lemma_text_tokens(e, 0, 0);
            let scope = ScopeView::empty().append_access_token(value);
            assert(parse_scope(tokens, 0, ScopeView::empty(), 0) == parse_scope(
                tokens,
                1,
                scope,
                0,
            ));
            assert(parse_scope(tokens, 1, scope, 0).result == scope.build());
        },
        _ => {
            lemma_text_tokens(e, 0, 0);
            assert(tokens.subrange(0, tokens.len() as int) == tokens);
            lemma_composite_parses(e, 0, tokens, 0);
        },
    }
}

/// The text of an expression in normal form, parsed and brought to normal
/// form again, is the expression, if the expression is writable or empty.
pub proof fn lemma_normal_text_round_trip(e: Expression)
    requires
        e.is_normal(),
        e is Nil || is_writable(e, 0),
    ensures
        parse_text(e.text()) is Ok,
        parse_text(e.text())->Ok_0.normal_form() == e,
{
    lemma_text_parses_back(e);
    if !(e is Nil) {
        lemma_parsed_normal_form(e, 0);
    }
}

/// The same of the normal form of any expression.
pub proof fn lemma_normal_form_text_round_trip(e: Expression)
    requires
        e.normal_form() is Nil || is_writable(e.normal_form(), 0),
    ensures
        parse_text(e.normal_form().text()) is Ok,
        parse_text(e.normal_form().text())->Ok_0.normal_form() == e.normal_form(),
{
    lemma_normal_form_is_normal(e);
    lemma_normal_text_round_trip(e.normal_form());
}

} // verus!
