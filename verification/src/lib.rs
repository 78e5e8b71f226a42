//! Authorization expressions: boolean formulas over access tokens, written
//! with `&`, `|` and parentheses, and their evaluation against the set of
//! tokens that a caller holds.

pub mod text;
pub mod lexer;
pub mod authorizations;
pub mod authorization_expression;
pub mod equality;
pub mod parser;
pub mod json;
pub mod caching;
pub mod laws;
pub mod order_laws;
pub mod lexer_laws;
pub mod parser_laws;
pub mod round_trip;
pub mod tree_laws;

use vstd::prelude::*;

pub use crate::authorization_expression::AuthorizationExpression;
pub use crate::authorizations::Authorizations;
pub use crate::json::JsonValue;
pub use crate::lexer::Lexer;
pub use crate::parser::Parser;
pub use crate::parser::ParserError;

use crate::authorization_expression::Expression;
use crate::authorizations::token_set;
use crate::json::Json;
use crate::parser::parse_text;
use crate::parser::ParserErrorView;
use crate::text::comma_separated;
use crate::text::split_at_commas;
use crate::text::string_views;

verus! {

/// Why an expression was not encoded as JSON.
#[derive(Debug)]
pub enum JsonError {
    /// The expression was not parsed; the text tells why.
    ParsingFailed(String),
}

impl JsonError {
    /// The message that tells of the error.
    pub fn to_string(&self) -> (text: String)
        ensures
            self matches JsonError::ParsingFailed(message) && text@ == message@,
    {
        match self {
            JsonError::ParsingFailed(message) => message.clone(),
        }
    }
}

/// A name under which the checks of this library are offered.
pub struct AccessEvaluator {}

/// Whether the tokens of `held` satisfy the expression that `expression`
/// is the text of; the error with which its parsing ends, if it is no
/// expression.
pub open spec fn check(expression: Seq<char>, held: Set<Seq<char>>) -> Result<
    bool,
    ParserErrorView,
> {
    match parse_text(expression) {
        Ok(tree) => Ok(tree.eval(held)),
        Err(e) => Err(e),
    }
}

/// The mathematical value of what a check returns.
pub open spec fn checked_view(result: Result<bool, ParserError>) -> Result<bool, ParserErrorView> {
    match result {
        Ok(granted) => Ok(granted),
        Err(e) => Err(e@),
    }
}

/// The set of the values that stand between the commas of `tokens`.
pub open spec fn comma_separated_set(tokens: Seq<char>) -> Set<Seq<char>> {
    Set::new(
        |token: Seq<char>|
            exists|i: int|
                0 <= i < comma_separated(tokens).len() && #[trigger] comma_separated(tokens)[i]
                    == token,
    )
}

/// Checks whether the given access tokens authorize access to what
/// `expression` protects.
pub fn check_authorization(expression: &str, tokens: &[String]) -> (result: Result<
    bool,
    ParserError,
>)
    ensures
        checked_view(result) == check(expression@, token_set(tokens@)),
{
    let lexer = Lexer::new(expression);
    let mut parser = Parser::new(lexer);
    let auth_expr = match parser.parse() {
        Ok(auth_expr) => auth_expr,
        Err(e) => {
            return Err(e);
        },
    };
    let authorized_labels = Authorizations::of(tokens);
    Ok(auth_expr.evaluate(&authorized_labels))
}

/// Checks whether the access tokens that stand between the commas of
/// `tokens` authorize access to what `expression` protects.
pub fn check_authorization_csv(expression: String, tokens: String) -> (result: Result<
    bool,
    ParserError,
>)
    ensures
        checked_view(result) == check(expression@, comma_separated_set(tokens@)),
{
    let prepared = prepare_authorization_csv(tokens);
    prepared(expression)
}

/// Prepares the check of expressions against the access tokens that stand
/// between the commas of `tokens`.
pub fn prepare_authorization_csv(tokens: String) -> (prepared: impl Fn(String) -> Result<
    bool,
    ParserError,
>)
    ensures
        forall|expression: String| call_requires(prepared, (expression,)),
        forall|expression: String, result: Result<bool, ParserError>|
            call_ensures(prepared, (expression,), result) ==> checked_view(result) == check(
                expression@,
                comma_separated_set(tokens@),
            ),
{
    let values = split_at_commas(tokens.as_str());
    proof {
        lemma_token_set_of_values(values@, tokens@);
    }
    move |expression: String| -> (result: Result<bool, ParserError>)
        ensures
            checked_view(result) == check(expression@, comma_separated_set(tokens@)),
        { check_authorization(expression.as_str(), values.as_slice()) }
}

/// The tokens of the strings that `split_at_commas` gives are the values
/// between the commas.
proof fn lemma_token_set_of_values(values: Seq<String>, tokens: Seq<char>)
    requires
        string_views(values) == comma_separated(tokens),
    ensures
        token_set(values) == comma_separated_set(tokens),
{
    let separated = comma_separated(tokens);
    assert forall|t: Seq<char>| token_set(values).contains(t) implies comma_separated_set(
        tokens,
    ).contains(t) by {
        let i = choose|i: int| 0 <= i < values.len() && (#[trigger] values[i])@ == t;
        assert(string_views(values)[i] == t);
        assert(separated[i] == t);
    }
    assert forall|t: Seq<char>| comma_separated_set(tokens).contains(t) implies token_set(
        values,
    ).contains(t) by {
        let i = choose|i: int| 0 <= i < separated.len() && #[trigger] separated[i] == t;
        assert(string_views(values)[i] == t);
        assert(values[i]@ == t);
    }
    assert(token_set(values) =~= comma_separated_set(tokens));
}

/// The text of the JSON document that encodes the expression that
/// `expression` is the text of.
pub fn expression_to_json_string(expression: &str) -> (result: Result<String, ParserError>)
    ensures
        match parse_text(expression@) {
            Ok(tree) => result matches Ok(text) && text@ == tree.json_text(),
            Err(e) => result matches Err(found) && found@ == e,
        },
{
    let lexer = Lexer::new(expression);
    let mut parser = Parser::new(lexer);
    match parser.parse() {
        Ok(auth_expr) => Ok(auth_expr.to_json_str()),
        Err(e) => Err(e),
    }
}

/// The JSON document that encodes the expression that `expression` is the
/// text of.
pub fn expression_to_json(expression: &str) -> (result: Result<JsonValue, JsonError>)
    ensures
        match parse_text(expression@) {
            Ok(tree) => result matches Ok(json) && json@ == tree.json(),
            Err(e) => result matches Err(JsonError::ParsingFailed(message)) && message@
                == e.debug_form(),
        },
{
    let lexer = Lexer::new(expression);
    let mut parser = Parser::new(lexer);
    match parser.parse() {
        Ok(expr) => Ok(expr.to_json()),
        Err(e) => Err(JsonError::ParsingFailed(e.to_debug_string())),
    }
}

} // verus!
