use accumulo_access::json::JsonValue;
use accumulo_access::lexer::{LexerError, Token};
use accumulo_access::parser::MAX_NESTING_DEPTH;
use accumulo_access::text::Comparison;
use accumulo_access::{
    check_authorization, check_authorization_csv, expression_to_json, expression_to_json_string,
    prepare_authorization_csv, AuthorizationExpression, JsonError, Lexer, Parser, ParserError,
};

fn parse(expression: &str) -> Result<AuthorizationExpression, ParserError> {
    let lexer: Lexer<'_> = Lexer::new(expression);
    let mut parser = Parser::new(lexer);
    parser.parse()
}

fn check(expr: &str, authorized_tokens: &str) -> bool {
    let authorized_tokens: Vec<String> = authorized_tokens
        .split(',')
        .map(|s| s.to_string().replace(['"', '\''], ""))
        .collect();
    check_authorization(expr, &authorized_tokens).unwrap()
}

fn token(value: &str) -> AuthorizationExpression {
    AuthorizationExpression::AccessToken(value.to_string())
}

#[test]
fn normalization_test() {
    let expression = "A&B&A&(D|E)&(E|D)"; // -> A&B&(D|E)
    let lexer: Lexer<'_> = Lexer::new(expression);
    let mut parser = Parser::new(lexer);

    let mut auth_expr = parser.parse().unwrap();
    auth_expr.normalize();
    let expected = AuthorizationExpression::ConjunctionOf(vec![
        AuthorizationExpression::AccessToken("A".to_string()),
        AuthorizationExpression::AccessToken("B".to_string()),
        AuthorizationExpression::DisjunctionOf(vec![
            AuthorizationExpression::AccessToken("D".to_string()),
            AuthorizationExpression::AccessToken("E".to_string()),
        ]),
    ]);
    assert_eq!(expected, auth_expr)
}

#[test]
fn normalization_gives_one_shape() {
    let mut first = parse("A&B&A&(D|E)&(E|D)").unwrap();
    first.normalize();
    let mut second = parse("(E|D|E)&B&A").unwrap();
    second.normalize();
    assert_eq!(first.to_json_str(), "{\"and\":[{\"or\":[\"D\",\"E\"]},\"A\",\"B\"]}");
    assert_eq!(second.to_json_str(), first.to_json_str());
    assert_eq!(first.to_expression_str(), "(D|E)&A&B");
}

#[test]
fn check_empty_expression() {
    assert_eq!(check("", ""), true);
    assert_eq!(check_authorization("", &[]), Ok(true));
}

#[test]
fn check_single_label() {
    assert_eq!(check("label1", "label1"), true);
    assert_eq!(check_authorization("label1", &["label1".to_string()]), Ok(true));
    assert_eq!(check_authorization("label1", &[]), Ok(false));
}

#[test]
fn check_disjunction() {
    assert_eq!(check("label1|label2", "label1"), true);
    assert_eq!(check("label1|label2", "label3"), false);
}

#[test]
fn check_conjunction() {
    assert_eq!(check("label1&label2", "label1"), false);
    assert_eq!(check("label1&label2", "label1,label2"), true);
    assert_eq!(check_authorization("label1&label2", &["label1".to_string()]), Ok(false));
}

#[test]
fn check_nested_scopes() {
    assert_eq!(check("label1&(label2|label3)", "label1"), false);
    assert_eq!(check("label1&(label2|label3)", "label1,label3"), true);
    assert_eq!(check("label1&(label2|label3)", "label1,label2"), true);
    assert_eq!(
        check_authorization(
            "label1&(label2|label3)",
            &["label1".to_string(), "label3".to_string()]
        ),
        Ok(true)
    );
}

#[test]
fn check_parenthesized_expressions() {
    assert_eq!(check("(label2|label3)", "label1"), false);
    assert_eq!(check("(label2|label3)", "label2"), true);
    assert_eq!(check("(label2&label3)", "label2"), false);
    assert_eq!(check("((label2|label3))", "label2"), true);
    assert_eq!(check("((label2&label3))", "label2"), false);
    assert_eq!(check("(((((label2&label3)))))", "label2"), false);
    assert_eq!(check_authorization("(label2|label3)", &["label1".to_string()]), Ok(false));
}

#[test]
fn check_quoted_labels() {
    assert_eq!(check("\"a b c\"", "\"a b c\""), true);
    assert_eq!(check_authorization("\"a b c\"", &["a b c".to_string()]), Ok(true));
    assert_eq!(check("\"abc!12\"&\"abc\\\\xyz\"&GHI", "abc\\xyz,abc!12"), false);
    assert_eq!(check("\"abc!12\"&\"abc\\\\xyz\"&GHI", "abc\\xyz,abc!12,GHI"), true);
}

#[test]
fn check_documented_example() {
    let expression = "label1|label5";
    let tokens = &Vec::from([
        String::from("label1"),
        String::from("label5"),
        String::from("label 🕺"),
    ]);
    assert_eq!(check_authorization(expression, tokens), Ok(true));
    assert_eq!(
        check_authorization("label1&label5&(label3|label8|\"label 🕺\")", tokens),
        Ok(true)
    );
}

#[test]
fn check_reports_parser_errors() {
    assert_eq!(
        check_authorization("label1 & label2", &["label1".to_string()]),
        Err(ParserError::LexerError(LexerError::UnexpectedCharacter(' ', 7)))
    );
    assert_eq!(check_authorization("a&b|c", &[]), Err(ParserError::MixingOperators));
    assert_eq!(check_authorization("a(b)", &[]), Err(ParserError::MissingOperator));
}

#[test]
fn check_csv_splits_the_tokens_at_commas() {
    assert_eq!(
        check_authorization_csv("label1&label2".to_string(), "label1,label2".to_string()),
        Ok(true)
    );
    assert_eq!(
        check_authorization_csv("label1&label2".to_string(), "label1".to_string()),
        Ok(false)
    );
    assert_eq!(
        check_authorization_csv("label1&label2".to_string(), "label1label2".to_string()),
        Ok(false)
    );
    assert_eq!(
        check_authorization_csv("\"\"".to_string(), "".to_string()),
        Ok(true)
    );
    assert_eq!(
        check_authorization_csv("\"\"".to_string(), "a".to_string()),
        Ok(false)
    );
    assert_eq!(
        check_authorization_csv("\"\"&a".to_string(), "a,".to_string()),
        Ok(true)
    );
    assert_eq!(
        check_authorization_csv("\" b\"".to_string(), "a, b".to_string()),
        Ok(true)
    );
    assert_eq!(
        check_authorization_csv("a|".to_string(), "x".to_string()),
        Ok(false)
    );
    assert_eq!(
        check_authorization_csv("a&b|c".to_string(), "a".to_string()),
        Err(ParserError::MixingOperators)
    );
}

#[test]
fn prepared_check_can_be_used_again() {
    let prepared = prepare_authorization_csv("label1,label3".to_string());
    assert_eq!(prepared("label1&(label2|label3)".to_string()), Ok(true));
    assert_eq!(prepared("label2".to_string()), Ok(false));
    assert_eq!(prepared("label1&&".to_string()), Ok(true));
    assert_eq!(prepared("a b".to_string()).is_err(), true);
}

#[test]
fn parse_empty_input_is_nil() {
    assert_eq!(parse("").unwrap().compare(&AuthorizationExpression::Nil), Comparison::Equal);
    assert_eq!(parse("()").unwrap().compare(&AuthorizationExpression::Nil), Comparison::Equal);
}

#[test]
fn parse_collapses_scopes_of_one() {
    assert_eq!(parse("a").unwrap().compare(&token("a")), Comparison::Equal);
    assert_eq!(parse("(a)").unwrap().compare(&token("a")), Comparison::Equal);
    assert_eq!(parse("((a))").unwrap().compare(&token("a")), Comparison::Equal);
    assert_eq!(parse("a&").unwrap().compare(&token("a")), Comparison::Equal);
    assert_eq!(parse("|a").unwrap().compare(&token("a")), Comparison::Equal);
}

#[test]
fn parse_in_parentheses_is_parse_without() {
    for expression in ["", "a", "a&b", "a|(b&c)", "(a|b)&(c|\"d e\")&f", "a b", "a&b|c", "((a))"] {
        let with = parse(&format!("({})", expression));
        let without = parse(expression);
        match (with, without) {
            (Ok(with), Ok(without)) => {
                assert_eq!(with.compare(&without), Comparison::Equal);
                assert_eq!(with.to_json_str(), without.to_json_str());
            }
            (Err(with), Err(ParserError::LexerError(LexerError::UnexpectedCharacter(c, at)))) => {
                assert_eq!(
                    with,
                    ParserError::LexerError(LexerError::UnexpectedCharacter(c, at + 1))
                );
            }
            (with, without) => assert_eq!(with.err(), without.err()),
        }
    }
}

#[test]
fn parse_puts_the_last_found_first() {
    assert_eq!(parse("a&b&c").unwrap().to_json_str(), "{\"and\":[\"c\",\"b\",\"a\"]}");
    assert_eq!(
        parse("a|(b&c)|d|(e)").unwrap().to_json_str(),
        "{\"or\":[\"d\",\"a\",\"e\",{\"and\":[\"c\",\"b\"]}]}"
    );
}

#[test]
fn parse_rejects_mixed_operators() {
    assert_eq!(parse("A&B|C"), Err(ParserError::MixingOperators));
    assert_eq!(parse("A|B&C"), Err(ParserError::MixingOperators));
    assert_eq!(parse("A&(B|C&D)"), Err(ParserError::MixingOperators));
    assert_eq!(parse("&|"), Err(ParserError::MixingOperators));
    assert!(parse("A&(B|C)&D").is_ok());
}

#[test]
fn parse_asks_for_an_operator() {
    assert_eq!(parse("\"a\"\"b\""), Err(ParserError::MissingOperator));
    assert_eq!(parse("a(b)"), Err(ParserError::MissingOperator));
    assert_eq!(parse("(a)(b)"), Err(ParserError::MissingOperator));
    assert_eq!(parse("(a\"b\")&c"), Err(ParserError::MissingOperator));
}

#[test]
fn parse_stops_at_the_first_lexical_error() {
    assert_eq!(
        parse("a&b c&&|"),
        Err(ParserError::LexerError(LexerError::UnexpectedCharacter(' ', 4)))
    );
    assert_eq!(
        parse("(a&[)"),
        Err(ParserError::LexerError(LexerError::UnexpectedCharacter('[', 4)))
    );
}

#[test]
fn parse_refuses_a_closing_parenthesis_that_closes_nothing() {
    let stray = Err(ParserError::UnexpectedToken(Token::CloseParen));
    assert_eq!(parse(")"), stray);
    assert_eq!(parse(")a"), stray);
    assert_eq!(parse("a)b"), stray);
    assert_eq!(parse("a)b|c"), stray);
    assert_eq!(parse("a)&b"), stray);
    assert_eq!(parse("(a&b))"), stray);
    assert_eq!(parse("(a)|(b))|c"), stray);
    assert_eq!(parse("())"), stray);
    assert_eq!(
        check_authorization("a)&b", &["a".to_string()]),
        Err(ParserError::UnexpectedToken(Token::CloseParen))
    );
    assert_eq!(
        ParserError::UnexpectedToken(Token::CloseParen).to_string(),
        "Unexpected token: )"
    );
    assert_eq!(parse("(a)").unwrap().compare(&token("a")), Comparison::Equal);
    assert_eq!(parse("((a)|b)").unwrap().to_json_str(), "{\"or\":[\"b\",\"a\"]}");
}

#[test]
fn parse_closes_open_scopes_at_the_end() {
    assert_eq!(parse("(a&b").unwrap().to_json_str(), "{\"and\":[\"b\",\"a\"]}");
    assert_eq!(parse("a&(b|c").unwrap().to_json_str(), "{\"and\":[\"a\",{\"or\":[\"c\",\"b\"]}]}");
}

#[test]
fn parse_bounds_the_nesting() {
    let at_the_limit = format!(
        "{}a{}",
        "(".repeat(MAX_NESTING_DEPTH),
        ")".repeat(MAX_NESTING_DEPTH)
    );
    assert_eq!(parse(&at_the_limit).unwrap().compare(&token("a")), Comparison::Equal);
    let beyond = format!(
        "{}a{}",
        "(".repeat(MAX_NESTING_DEPTH + 1),
        ")".repeat(MAX_NESTING_DEPTH + 1)
    );
    assert_eq!(parse(&beyond), Err(ParserError::UnexpectedToken(Token::OpenParen)));
    let far_beyond = "(".repeat(100_000);
    assert_eq!(parse(&far_beyond), Err(ParserError::UnexpectedToken(Token::OpenParen)));
    assert_eq!(MAX_NESTING_DEPTH, 128);
}

#[test]
fn text_of_a_normal_form_parses_back() {
    let mut expr = parse("b&a&(d|(e&f)|c)&a").unwrap();
    expr.normalize();
    let text = expr.to_expression_str();
    assert_eq!(text, "((e&f)|c|d)&a&b");
    let mut again = parse(&text).unwrap();
    again.normalize();
    assert_eq!(again.compare(&expr), Comparison::Equal);
    assert_eq!(again.to_json_str(), expr.to_json_str());
}

#[test]
fn parser_error_messages() {
    assert_eq!(ParserError::EmptyScope.to_string(), "Empty scope");
    assert_eq!(ParserError::MissingOperator.to_string(), "Missing operator");
    assert_eq!(ParserError::MixingOperators.to_string(), "Mixing operators");
    assert_eq!(
        ParserError::UnexpectedToken(Token::CloseParen).to_string(),
        "Unexpected token: )"
    );
    assert_eq!(
        ParserError::UnexpectedToken(Token::AccessToken("a b".to_string())).to_string(),
        "Unexpected token: \"a b\""
    );
    assert_eq!(
        ParserError::LexerError(LexerError::UnexpectedCharacter('[', 10)).to_string(),
        "Unexpected character '[' at position 10"
    );
}

#[test]
fn expression_to_json_string_writes_the_tree() {
    assert_eq!(
        expression_to_json_string("ALL_ACCESS|(SECRET&NTK&(COI1|COI2))"),
        Ok("{\"or\":[\"ALL_ACCESS\",{\"and\":[\"NTK\",\"SECRET\",{\"or\":[\"COI2\",\"COI1\"]}]}]}"
            .to_string())
    );
    assert_eq!(expression_to_json_string(""), Ok("null".to_string()));
    assert_eq!(expression_to_json_string("\"a\\\"b\""), Ok("\"a\\\"b\"".to_string()));
    assert_eq!(expression_to_json_string("a&b|c"), Err(ParserError::MixingOperators));
}

#[test]
fn expression_to_json_gives_the_tree() {
    match expression_to_json("a|b") {
        Ok(JsonValue::Object(members)) => {
            assert_eq!(members.len(), 1);
            assert_eq!(members[0].key, "or");
            match &members[0].value {
                JsonValue::Array(items) => {
                    assert_eq!(items.len(), 2);
                    assert!(matches!(&items[0], JsonValue::String(text) if text == "b"));
                    assert!(matches!(&items[1], JsonValue::String(text) if text == "a"));
                }
                other => panic!("not an array: {:?}", other),
            }
        }
        other => panic!("not an object: {:?}", other.map_err(|e| e.to_string())),
    }
    assert!(matches!(expression_to_json(""), Ok(JsonValue::Null)));
}

#[test]
fn expression_to_json_tells_why_parsing_failed() {
    match expression_to_json("label1 & [") {
        Err(JsonError::ParsingFailed(message)) => {
            assert_eq!(message, "LexerError(UnexpectedCharacter(' ', 7))");
        }
        Ok(_) => panic!("parsed"),
    }
    match expression_to_json("a&b|c") {
        Err(error) => assert_eq!(error.to_string(), "MixingOperators"),
        Ok(_) => panic!("parsed"),
    }
}

#[test]
fn texts_of_normal_forms_parse_back() {
    let inputs = [
        "",
        "label",
        "a&b",
        "b|a",
        "(x|y)&(y|z)&x",
        "a|(b&(c|(d&e)))|(b&(c|(d&e)))",
        "q:1/2&(r.s|t-u|_v)",
    ];
    for input in inputs {
        let mut expr = parse(input).unwrap();
        expr.normalize();
        let text = expr.to_expression_str();
        let mut again = parse(&text).unwrap();
        again.normalize();
        assert_eq!(again.compare(&expr), Comparison::Equal, "{input}");
        assert_eq!(again.to_expression_str(), text, "{input}");
    }
}

#[test]
fn debug_strings_are_those_of_debug_formatting() {
    let errors = [
        ParserError::EmptyScope,
        ParserError::MissingOperator,
        ParserError::MixingOperators,
        ParserError::UnexpectedToken(Token::OpenParen),
        ParserError::UnexpectedToken(Token::CloseParen),
        ParserError::UnexpectedToken(Token::And),
        ParserError::UnexpectedToken(Token::Or),
        ParserError::UnexpectedToken(Token::AccessToken("a \"b\" \\ c\n".to_string())),
        ParserError::LexerError(LexerError::UnexpectedCharacter('[', 10)),
        ParserError::LexerError(LexerError::UnexpectedCharacter('\'', 0)),
        ParserError::LexerError(LexerError::UnexpectedCharacter('\n', 18446744073709551615)),
        ParserError::LexerError(LexerError::UnexpectedCharacter('\u{7f}', 7)),
    ];
    for error in errors {
        assert_eq!(error.to_debug_string(), format!("{:?}", error));
    }
    assert_eq!(
        ParserError::LexerError(LexerError::UnexpectedCharacter(' ', 2)).to_debug_string(),
        "LexerError(UnexpectedCharacter(' ', 2))"
    );
    assert_eq!(
        Token::AccessToken("a b".to_string()).to_debug_string(),
        "AccessToken(\"a b\")"
    );
}

fn leaves(tree: &AuthorizationExpression, found: &mut Vec<String>) {
    match tree {
        AuthorizationExpression::ConjunctionOf(nodes)
        | AuthorizationExpression::DisjunctionOf(nodes) => {
            assert!(nodes.len() >= 2);
            for node in nodes {
                leaves(node, found);
            }
        }
        AuthorizationExpression::AccessToken(value) => found.push(value.clone()),
        AuthorizationExpression::Nil => {}
    }
}

#[test]
fn parsed_trees_hold_the_tokens_of_the_input() {
    let inputs = [
        "a",
        "a&b&c",
        "(a|b)&(c|(d&e))&f",
        "((((x))))|y|(z&\"q r\")",
        "(a&b",
        "a|(b&(c|d",
        "()",
        "a&()",
        "",
    ];
    for input in inputs {
        let tree = parse(input).unwrap();
        let mut found = Vec::new();
        leaves(&tree, &mut found);
        found.sort();
        let mut expected: Vec<String> = Lexer::new(input)
            .collect()
            .into_iter()
            .filter_map(|item| match item {
                Ok(Token::AccessToken(value)) => Some(value),
                _ => None,
            })
            .collect();
        expected.sort();
        assert_eq!(found, expected, "{input}");
    }
}

#[test]
fn accepted_texts_parse_alike_in_parentheses() {
    let inputs = ["", "a", "a&b", "(a|b)&c", "(a", "a&(b|c", "((a)&b", "()", "a|()", "\"x y\"|z"];
    for input in inputs {
        let alone = parse(input).unwrap();
        let inside = parse(&format!("({input})")).unwrap();
        assert_eq!(inside.to_json_str(), alone.to_json_str(), "{input}");
        assert_eq!(inside.compare(&alone), Comparison::Equal, "{input}");
    }
}
