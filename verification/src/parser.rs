//! Parsing: from tokens to an expression tree.
//!
//! What a token stream parses to is defined by [`parse_scope`], a recursive
//! descent over the stream with one scope for each level of nesting.
//! [`Parser`] computes it while it draws the tokens from a [`Lexer`].

use vstd::prelude::*;
use vstd::string::StringExecFns;
use crate::authorization_expression::AuthorizationExpression;
use crate::authorization_expression::Expression;
use crate::authorization_expression::lemma_view_children;
use crate::authorization_expression::views;
use crate::lexer::lex;
use crate::lexer::LexItem;
use crate::lexer::Lexer;
use crate::lexer::LexerError;
use crate::lexer::Operator;
use crate::lexer::Token;
use crate::lexer::TokenView;

verus! {

/// How many scopes may be open inside one another. An opening parenthesis
/// that would go beyond is refused, so that neither the parser nor the
/// operations on the tree it returns recurse deeper than this.
pub const MAX_NESTING_DEPTH: usize = 128;

/// Why an expression was not parsed.
#[derive(Debug, PartialEq, Clone)]
pub enum ParserError {
    /// The scope (top level or set of parentheses) is empty.
    EmptyScope,
    /// The scope holds several elements and no operator (`&` or `|`).
    MissingOperator,
    /// The token cannot stand where it was found.
    UnexpectedToken(Token),
    /// The scope holds both operators (`&` and `|`).
    MixingOperators,
    /// The lexer found a character that the grammar does not allow.
    LexerError(LexerError),
}

/// The mathematical value of a [`ParserError`].
pub ghost enum ParserErrorView {
    EmptyScope,
    MissingOperator,
    UnexpectedToken(TokenView),
    MixingOperators,
    LexerError(LexerError),
}

impl View for ParserError {
    type V = ParserErrorView;

    open spec fn view(&self) -> ParserErrorView {
        match self {
            ParserError::EmptyScope => ParserErrorView::EmptyScope,
            ParserError::MissingOperator => ParserErrorView::MissingOperator,
            ParserError::UnexpectedToken(token) => ParserErrorView::UnexpectedToken(token@),
            ParserError::MixingOperators => ParserErrorView::MixingOperators,
            ParserError::LexerError(e) => ParserErrorView::LexerError(*e),
        }
    }
}

impl ParserErrorView {
    /// The message that tells of the error.
    pub open spec fn message(self) -> Seq<char> {
        match self {
            ParserErrorView::EmptyScope => "Empty scope"@,
            ParserErrorView::MissingOperator => "Missing operator"@,
            ParserErrorView::UnexpectedToken(token) => "Unexpected token: "@ + token.message(),
            ParserErrorView::MixingOperators => "Mixing operators"@,
            ParserErrorView::LexerError(e) => e.message(),
        }
    }

    /// What `Debug` formatting writes for the error: the name of its
    /// variant, and in parentheses what it writes for the token or the
    /// lexical error that the variant holds.
    pub open spec fn debug_form(self) -> Seq<char> {
        match self {
            ParserErrorView::EmptyScope => "EmptyScope"@,
            ParserErrorView::MissingOperator => "MissingOperator"@,
            ParserErrorView::UnexpectedToken(token) => "UnexpectedToken("@ + token.debug_form()
                + ")"@,
            ParserErrorView::MixingOperators => "MixingOperators"@,
            ParserErrorView::LexerError(e) => "LexerError("@ + e.debug_form() + ")"@,
        }
    }
}

/// The message that tells of an unexpected token, from the text `shown`
/// that the token is shown as.
pub fn unexpected_token_message(shown: &str) -> (text: String)
    ensures
        text@ == "Unexpected token: "@ + shown@,
{
    let mut text = "Unexpected token: ".to_owned();
    text.append(shown);
    text
}

impl ParserError {
    /// The message that tells of the error.
    pub fn to_string(&self) -> (text: String)
        ensures
            text@ == self@.message(),
    {
        match self {
            ParserError::EmptyScope => "Empty scope".to_owned(),
            ParserError::MissingOperator => "Missing operator".to_owned(),
            ParserError::UnexpectedToken(token) => unexpected_token_message(
                token.to_string().as_str(),
            ),
            ParserError::MixingOperators => "Mixing operators".to_owned(),
            ParserError::LexerError(e) => e.to_string(),
        }
    }

    /// The error as `Debug` formatting writes it.
    pub fn to_debug_string(&self) -> (text: String)
        ensures
            text@ == self@.debug_form(),
    {
        match self {
            ParserError::EmptyScope => "EmptyScope".to_owned(),
            ParserError::MissingOperator => "MissingOperator".to_owned(),
            ParserError::UnexpectedToken(token) => {
                let mut text = "UnexpectedToken(".to_owned();
                text.append(token.to_debug_string().as_str());
                text.append(")");
                text
            },
            ParserError::MixingOperators => "MixingOperators".to_owned(),
            ParserError::LexerError(e) => {
                let mut text = "LexerError(".to_owned();
                text.append(e.to_debug_string().as_str());
                text.append(")");
                text
            },
        }
    }
}

/// The mathematical value of what the parser returns.
pub open spec fn result_view(result: Result<AuthorizationExpression, ParserError>) -> Result<
    Expression,
    ParserErrorView,
> {
    match result {
        Ok(tree) => Ok(tree@),
        Err(e) => Err(e@),
    }
}

/// One level of nesting while it is parsed: the sub-expressions and the
/// access tokens found in it so far, and its operator once one was seen.
pub ghost struct ScopeView {
    pub nodes: Seq<Expression>,
    pub access_tokens: Seq<Seq<char>>,
    pub operator: Option<Operator>,
}

impl ScopeView {
    /// The scope in which nothing was found yet.
    pub open spec fn empty() -> ScopeView {
        ScopeView { nodes: Seq::empty(), access_tokens: Seq::empty(), operator: None }
    }

    /// The scope after the sub-expression `node` was found in it.
    pub open spec fn append_node(self, node: Expression) -> ScopeView {
        ScopeView { nodes: self.nodes.push(node), ..self }
    }

    /// The scope after the access token `label` was found in it.
    pub open spec fn append_access_token(self, label: Seq<char>) -> ScopeView {
        ScopeView { access_tokens: self.access_tokens.push(label), ..self }
    }

    /// The scope after `operator` was found in it; `MixingOperators` if the
    /// other operator was found in it before.
    pub open spec fn set_operator(self, operator: Operator) -> Result<ScopeView, ParserErrorView> {
        if self.operator is Some && self.operator != Some(operator) {
            Err(ParserErrorView::MixingOperators)
        } else {
            Ok(ScopeView { operator: Some(operator), ..self })
        }
    }

    /// The children of the composite that the scope builds: its access
    /// tokens, the last found first, then its sub-expressions, the last found
    /// first.
    pub open spec fn children(self) -> Seq<Expression> {
        Seq::new(
            self.access_tokens.len() + self.nodes.len(),
            |i: int|
                if i < self.access_tokens.len() {
                    Expression::AccessToken(self.access_tokens[self.access_tokens.len() - 1 - i])
                } else {
                    self.nodes[self.nodes.len() - 1 - (i - self.access_tokens.len())]
                },
        )
    }

    /// The expression that the scope stands for.
    ///
    /// An empty scope gives the empty expression. A scope that holds one
    /// access token and nothing else gives that token, and one that holds one
    /// sub-expression and nothing else gives that sub-expression. Any other
    /// scope needs an operator, and gives the composite of its children.
    pub open spec fn build(self) -> Result<Expression, ParserErrorView> {
        if self.access_tokens.len() == 0 && self.nodes.len() == 0 {
            Ok(Expression::Nil)
        } else if self.access_tokens.len() == 1 && self.nodes.len() == 0 {
            Ok(Expression::AccessToken(self.access_tokens[0]))
        } else if self.nodes.len() == 1 && self.access_tokens.len() == 0 {
            Ok(self.nodes[0])
        } else {
            match self.operator {
                None => Err(ParserErrorView::MissingOperator),
                Some(Operator::Conjunction) => Ok(Expression::ConjunctionOf(self.children())),
                Some(Operator::Disjunction) => Ok(Expression::DisjunctionOf(self.children())),
            }
        }
    }
}

/// What parsing one scope gives, and the index of the token after the last
/// one that was taken for it.
pub ghost struct Parsed {
    pub result: Result<Expression, ParserErrorView>,
    pub next: int,
}

/// Parses the rest of a scope: `scope` holds what was found in it so far,
/// the tokens of `tokens` from index `at` on are yet to be taken, and `depth`
/// scopes are open around it.
///
/// An access token is added to the scope. An operator becomes the operator of
/// the scope, unless the scope has the other one. An opening parenthesis
/// starts a scope of its own, which is parsed to its end and added to this one
/// as a sub-expression. A closing parenthesis ends a scope that an opening
/// parenthesis started; where no scope is open around this one it is an
/// unexpected token. The end of the tokens ends the scope. A lexical error
/// ends parsing, and so does any error inside a nested scope.
pub open spec fn parse_scope(tokens: Seq<LexItem>, at: int, scope: ScopeView, depth: nat) -> Parsed
    decreases tokens.len() - at,
{
    if at < 0 || at >= tokens.len() {
        Parsed { result: scope.build(), next: at }
    } else {
        match tokens[at] {
            Err(e) => Parsed { result: Err(ParserErrorView::LexerError(e)), next: at + 1 },
            Ok(TokenView::AccessToken(value)) => parse_scope(
                tokens,
                at + 1,
                scope.append_access_token(value),
                depth,
            ),
            Ok(TokenView::And) => match scope.set_operator(Operator::Conjunction) {
                Ok(with_operator) => parse_scope(tokens, at + 1, with_operator, depth),
                Err(e) => Parsed { result: Err(e), next: at + 1 },
            },
            Ok(TokenView::Or) => match scope.set_operator(Operator::Disjunction) {
                Ok(with_operator) => parse_scope(tokens, at + 1, with_operator, depth),
                Err(e) => Parsed { result: Err(e), next: at + 1 },
            },
            Ok(TokenView::CloseParen) => if depth == 0 {
                Parsed {
                    result: Err(ParserErrorView::UnexpectedToken(TokenView::CloseParen)),
                    next: at + 1,
                }
            } else {
                Parsed { result: scope.build(), next: at + 1 }
            },
            Ok(TokenView::OpenParen) => if depth >= MAX_NESTING_DEPTH {
                Parsed {
                    result: Err(ParserErrorView::UnexpectedToken(TokenView::OpenParen)),
                    next: at + 1,
                }
            } else {
                let inner = parse_scope(tokens, at + 1, ScopeView::empty(), depth + 1);
                match inner.result {
                    Ok(node) if at < inner.next <= tokens.len() => parse_scope(
                        tokens,
                        inner.next,
                        scope.append_node(node),
                        depth,
                    ),
                    _ => inner,
                }
            },
        }
    }
}

/// What the text of an expression parses to.
pub open spec fn parse_text(text: Seq<char>) -> Result<Expression, ParserErrorView> {
    parse_scope(lex(text, 0), 0, ScopeView::empty(), 0).result
}

/// Parsing a scope takes tokens from where it starts, at least one if there
/// is one, and none beyond the end.
pub proof fn lemma_parse_scope_bounds(tokens: Seq<LexItem>, at: int, scope: ScopeView, depth: nat)
    requires
        0 <= at <= tokens.len(),
    ensures
        at <= parse_scope(tokens, at, scope, depth).next <= tokens.len(),
        at < tokens.len() ==> at < parse_scope(tokens, at, scope, depth).next,
    decreases tokens.len() - at,
{
    if at < tokens.len() {
        match tokens[at] {
            Err(e) => {},
            Ok(TokenView::AccessToken(value)) => {
                lemma_parse_scope_bounds(tokens, at + 1, scope.append_access_token(value), depth);
            },
            Ok(TokenView::And) => {
                if let Ok(with_operator) = scope.set_operator(Operator::Conjunction) {
                    lemma_parse_scope_bounds(tokens, at + 1, with_operator, depth);
                }
            },
            Ok(TokenView::Or) => {
                if let Ok(with_operator) = scope.set_operator(Operator::Disjunction) {
                    lemma_parse_scope_bounds(tokens, at + 1, with_operator, depth);
                }
            },
            Ok(TokenView::CloseParen) => {},
            Ok(TokenView::OpenParen) => {
                if depth < MAX_NESTING_DEPTH {
                    lemma_parse_scope_bounds(tokens, at + 1, ScopeView::empty(), depth + 1);
                    let inner = parse_scope(tokens, at + 1, ScopeView::empty(), depth + 1);
                    if let Ok(node) = inner.result {
                        lemma_parse_scope_bounds(
                            tokens,
                            inner.next,
                            scope.append_node(node),
                            depth,
                        );
                    }
                }
            },
        }
    }
}

/// One level of nesting while it is parsed.
#[derive(Debug)]
pub struct Scope {
    nodes: Vec<AuthorizationExpression>,
    access_tokens: Vec<String>,
    operator: Option<Operator>,
}

impl View for Scope {
    type V = ScopeView;

    closed spec fn view(&self) -> ScopeView {
        ScopeView {
            nodes: views(self.nodes@),
            access_tokens: Seq::new(self.access_tokens@.len(), |i: int| self.access_tokens@[i]@),
            operator: self.operator,
        }
    }
}

impl Scope {
    /// The scope in which nothing was found yet.
    pub fn new() -> (scope: Self)
        ensures
            scope@ == ScopeView::empty(),
    {
        let scope = Scope { nodes: Vec::new(), access_tokens: Vec::new(), operator: None };
        proof {
            assert(scope@.nodes =~= Seq::empty());
            assert(scope@.access_tokens =~= Seq::empty());
        }
        scope
    }

    /// Adds a sub-expression to the scope.
    pub fn append_node(&mut self, node: AuthorizationExpression)
        ensures
            final(self)@ == old(self)@.append_node(node@),
    {
        self.nodes.push(node);
        proof {
            assert(self@.nodes =~= old(self)@.nodes.push(node@));
            assert(self@.access_tokens =~= old(self)@.access_tokens);
        }
    }

    /// Adds an access token to the scope.
    pub fn append_access_token(&mut self, label: String)
        ensures
            final(self)@ == old(self)@.append_access_token(label@),
    {
        self.access_tokens.push(label);
        proof {
            assert(self@.access_tokens =~= old(self)@.access_tokens.push(label@));
            assert(self@.nodes =~= old(self)@.nodes);
        }
    }

    /// Makes `|` the operator of the scope, unless `&` is.
    pub fn disjunction(&mut self) -> (result: Result<(), ParserError>)
        ensures
            match old(self)@.set_operator(Operator::Disjunction) {
                Ok(scope) => result is Ok && final(self)@ == scope,
                Err(e) => result matches Err(found) && found@ == e && final(self)@ == old(self)@,
            },
    {
        self.set_operator(&Operator::Disjunction)
    }

    /// Makes `&` the operator of the scope, unless `|` is.
    pub fn conjunction(&mut self) -> (result: Result<(), ParserError>)
        ensures
            match old(self)@.set_operator(Operator::Conjunction) {
                Ok(scope) => result is Ok && final(self)@ == scope,
                Err(e) => result matches Err(found) && found@ == e && final(self)@ == old(self)@,
            },
    {
        self.set_operator(&Operator::Conjunction)
    }

    /// Makes `operator` the operator of the scope, unless the other one is.
    pub fn set_operator(&mut self, operator: &Operator) -> (result: Result<(), ParserError>)
        ensures
            match old(self)@.set_operator(*operator) {
                Ok(scope) => result is Ok && final(self)@ == scope,
                Err(e) => result matches Err(found) && found@ == e && final(self)@ == old(self)@,
            },
    {
        match operator {
            Operator::Conjunction => {
                if let Some(Operator::Disjunction) = self.operator {
                    return Err(ParserError::MixingOperators);
                }
            },
            Operator::Disjunction => {
                if let Some(Operator::Conjunction) = self.operator {
                    return Err(ParserError::MixingOperators);
                }
            },
        }
        self.operator = Some(*operator);
        Ok(())
    }

    /// Ends the scope and gives the expression that it stands for.
    pub fn build(self) -> (result: Result<AuthorizationExpression, ParserError>)
        ensures
            result_view(result) == self@.build(),
    {
        let ghost scope = self@;
        let Scope { nodes, access_tokens, operator } = self;
        let mut nodes = nodes;
        let mut access_tokens = access_tokens;
        if access_tokens.len() == 0 && nodes.len() == 0 {
            return Ok(AuthorizationExpression::Nil);
        }
        if access_tokens.len() == 1 && nodes.len() == 0 {
            let label = access_tokens.pop().unwrap();
            return Ok(AuthorizationExpression::AccessToken(label));
        }
        if nodes.len() == 1 && access_tokens.len() == 0 {
            let node = nodes.pop().unwrap();
            return Ok(node);
        }
        let operator = match operator {
            Some(operator) => operator,
            None => {
                return Err(ParserError::MissingOperator);
            },
        };
        let ghost labels = access_tokens@;
        let ghost subtrees = nodes@;
        let mut children: Vec<AuthorizationExpression> = Vec::new();
        loop
            invariant
                access_tokens@ == labels.take(access_tokens.len() as int),
                access_tokens.len() <= labels.len(),
                children.len() == labels.len() - access_tokens.len(),
                forall|k: int|
                    0 <= k < children.len() ==> (#[trigger] children@[k])@
                        == Expression::AccessToken(labels[labels.len() - 1 - k]@),
            ensures
                children.len() == labels.len(),
                forall|k: int|
                    0 <= k < children.len() ==> (#[trigger] children@[k])@
                        == Expression::AccessToken(labels[labels.len() - 1 - k]@),
            decreases access_tokens.len(),
        {
            match access_tokens.pop() {
                Some(label) => {
                    children.push(AuthorizationExpression::AccessToken(label));
                },
                None => {
                    break ;
                },
            }
        }
        loop
            invariant
                nodes@ == subtrees.take(nodes.len() as int),
                nodes.len() <= subtrees.len(),
                children.len() == labels.len() + subtrees.len() - nodes.len(),
                forall|k: int|
                    0 <= k < labels.len() ==> (#[trigger] children@[k])@
                        == Expression::AccessToken(labels[labels.len() - 1 - k]@),
                forall|k: int|
                    labels.len() <= k < children.len() ==> (#[trigger] children@[k])@
                        == subtrees[subtrees.len() - 1 - (k - labels.len())]@,
            ensures
                children.len() == labels.len() + subtrees.len(),
                forall|k: int|
                    0 <= k < labels.len() ==> (#[trigger] children@[k])@
                        == Expression::AccessToken(labels[labels.len() - 1 - k]@),
                forall|k: int|
                    labels.len() <= k < children.len() ==> (#[trigger] children@[k])@
                        == subtrees[subtrees.len() - 1 - (k - labels.len())]@,
            decreases nodes.len(),
        {
            match nodes.pop() {
                Some(node) => {
                    children.push(node);
                },
                None => {
                    break ;
                },
            }
        }
        proof {
            assert(views(children@) =~= scope.children());
            lemma_view_children(children);
        }
        match operator {
            Operator::Conjunction => Ok(AuthorizationExpression::ConjunctionOf(children)),
            Operator::Disjunction => Ok(AuthorizationExpression::DisjunctionOf(children)),
        }
    }
}

/// A parser of authorization expressions. It draws tokens from a lexer and
/// builds the expression tree.
pub struct Parser<'a> {
    lexer: Lexer<'a>,
}

impl<'a> Parser<'a> {
    /// The tokens that the parser has yet to take.
    pub closed spec fn tokens(&self) -> Seq<LexItem> {
        self.lexer.tokens()
    }

    /// Creates a parser that takes its tokens from `lexer`.
    pub fn new(lexer: Lexer<'a>) -> (parser: Self)
        ensures
            parser.tokens() == lexer.tokens(),
    {
        Parser { lexer }
    }

    /// Parses one expression: all the tokens up to the end of the input. A
    /// closing parenthesis that no opening parenthesis precedes is refused as
    /// an unexpected token, and so is an opening parenthesis nested deeper
    /// than [`MAX_NESTING_DEPTH`].
    pub fn parse(&mut self) -> (result: Result<AuthorizationExpression, ParserError>)
        ensures
            ({
                let parsed = parse_scope(old(self).tokens(), 0, ScopeView::empty(), 0);
                &&& result_view(result) == parsed.result
                &&& final(self).tokens() == old(self).tokens().skip(parsed.next)
            }),
    {
        let ghost tokens = self.tokens();
        proof {
            assert(tokens.skip(0) == tokens);
        }
        self.parse_nested(0, Ghost(tokens), Ghost(0))
    }

    /// Parses the scope that starts at index `at` of `tokens`, inside `depth`
    /// open scopes.
    fn parse_nested(
        &mut self,
        depth: usize,
        Ghost(tokens): Ghost<Seq<LexItem>>,
        Ghost(at): Ghost<int>,
    ) -> (result: Result<AuthorizationExpression, ParserError>)
        requires
            depth <= MAX_NESTING_DEPTH,
            0 <= at <= tokens.len(),
            old(self).tokens() == tokens.skip(at),
        ensures
            ({
                let parsed = parse_scope(tokens, at, ScopeView::empty(), depth as nat);
                &&& result_view(result) == parsed.result
                &&& final(self).tokens() == tokens.skip(parsed.next)
                &&& at <= parsed.next <= tokens.len()
            }),
        decreases MAX_NESTING_DEPTH - depth,
    {
        let mut scope = Scope::new();
        let ghost mut i: int = at;
        proof {
            lemma_parse_scope_bounds(tokens, at, ScopeView::empty(), depth as nat);
        }
        loop
            invariant
                depth <= MAX_NESTING_DEPTH,
                0 <= at <= i <= tokens.len(),
                self.tokens() == tokens.skip(i),
                parse_scope(tokens, i, scope@, depth as nat) == parse_scope(
                    tokens,
                    at,
                    ScopeView::empty(),
                    depth as nat,
                ),
                at <= parse_scope(tokens, at, ScopeView::empty(), depth as nat).next
                    <= tokens.len(),
            decreases tokens.len() - i,
        {
            let found = self.lexer.next();
            proof {
                if i < tokens.len() {
                    assert(tokens.skip(i)[0] == tokens[i]);
                    assert(tokens.skip(i).drop_first() == tokens.skip(i + 1));
                }
            }
            let token = match found {
                None => {
                    return scope.build();
                },
                Some(Err(e)) => {
                    return Err(ParserError::LexerError(e));
                },
                Some(Ok(token)) => token,
            };
            match token {
                Token::AccessToken(value) => {
                    scope.append_access_token(value);
                    proof {
                        i = i + 1;
                    }
                },
                Token::OpenParen => {
                    if depth >= MAX_NESTING_DEPTH {
                        return Err(ParserError::UnexpectedToken(Token::OpenParen));
                    }
                    let ghost inner = parse_scope(
                        tokens,
                        i + 1,
                        ScopeView::empty(),
                        (depth + 1) as nat,
                    );
                    let node = match self.parse_nested(depth + 1, Ghost(tokens), Ghost(i + 1)) {
                        Ok(node) => node,
                        Err(e) => {
                            return Err(e);
                        },
                    };
                    scope.append_node(node);
                    proof {
                        i = inner.next;
                    }
                },
                Token::And => {
                    match scope.conjunction() {
                        Ok(()) => {},
                        Err(e) => {
                            return Err(e);
                        },
                    }
                    proof {
                        i = i + 1;
                    }
                },
                Token::Or => {
                    match scope.disjunction() {
                        Ok(()) => {},
                        Err(e) => {
                            return Err(e);
                        },
                    }
                    proof {
                        i = i + 1;
                    }
                },
                Token::CloseParen => {
                    if depth == 0 {
                        return Err(ParserError::UnexpectedToken(Token::CloseParen));
                    }
                    return scope.build();
                },
            }
        }
    }
}

} // verus!
