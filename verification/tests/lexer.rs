use accumulo_access::lexer::{
    access_token_debug_string, unexpected_character_debug_string, Lexer, LexerError, Token,
};
use accumulo_access::parser::unexpected_token_message;

#[test]
fn test_lexer_valid() {
    let input = "label1&\"label 🕺\"|(\"hello \\\\ \\\"world\"|label4|(label5&label6)))";
    let lexer = Lexer::new(input);
    let tokens: Vec<Result<Token, LexerError>> = lexer.collect();
    assert_eq!(
        tokens,
        vec![
            Ok(Token::AccessToken("label1".to_string())),
            Ok(Token::And),
            Ok(Token::AccessToken("label 🕺".to_string())),
            Ok(Token::Or),
            Ok(Token::OpenParen),
            Ok(Token::AccessToken("hello \\ \"world".to_string())),
            Ok(Token::Or),
            Ok(Token::AccessToken("label4".to_string())),
            Ok(Token::Or),
            Ok(Token::OpenParen),
            Ok(Token::AccessToken("label5".to_string())),
            Ok(Token::And),
            Ok(Token::AccessToken("label6".to_string())),
            Ok(Token::CloseParen),
            Ok(Token::CloseParen),
            Ok(Token::CloseParen),
        ]
    );
}

#[test]
fn test_lexer_valid2() {
    let input = "\"abc!12\"&\"abc\\\\xyz\"&GHI";

    let lexer = Lexer::new(input);
    let tokens: Vec<Result<Token, LexerError>> = lexer.collect();

    assert_eq!(
        tokens,
        vec![
            Ok(Token::AccessToken("abc!12".to_string())),
            Ok(Token::And),
            Ok(Token::AccessToken("abc\\xyz".to_string())),
            Ok(Token::And),
            Ok(Token::AccessToken("GHI".to_string())),
        ]
    );
}

#[test]
fn test_lexer_invalid() {
    let input = "label1 & [";
    let lexer = Lexer::new(input);
    let tokens: Vec<Result<Token, LexerError>> = lexer.collect();
    assert_eq!(
        tokens,
        vec![
            Ok(Token::AccessToken("label1".to_string())),
            Err(LexerError::UnexpectedCharacter(' ', 7)),
            Ok(Token::And),
            Err(LexerError::UnexpectedCharacter(' ', 9)),
            Err(LexerError::UnexpectedCharacter('[', 10)),
        ]
    );
}

fn lex(input: &str) -> Vec<Result<Token, LexerError>> {
    Lexer::new(input).collect()
}

#[test]
fn lexer_empty_input_has_no_tokens() {
    assert_eq!(lex(""), vec![]);
    let mut lexer = Lexer::new("");
    assert_eq!(lexer.next(), None);
    assert_eq!(lexer.next(), None);
}

#[test]
fn lexer_single_character_tokens() {
    assert_eq!(
        lex("()&|"),
        vec![Ok(Token::OpenParen), Ok(Token::CloseParen), Ok(Token::And), Ok(Token::Or)]
    );
}

#[test]
fn lexer_unquoted_token_takes_every_allowed_character() {
    assert_eq!(
        lex("aZ09_-.:/"),
        vec![Ok(Token::AccessToken("aZ09_-.:/".to_string()))]
    );
}

#[test]
fn lexer_unquoted_token_ends_at_quote() {
    assert_eq!(
        lex("ab\"cd\""),
        vec![
            Ok(Token::AccessToken("ab".to_string())),
            Ok(Token::AccessToken("cd".to_string())),
        ]
    );
}

#[test]
fn lexer_rejects_whitespace_outside_quotes() {
    assert_eq!(
        lex("a\tb\nc"),
        vec![
            Ok(Token::AccessToken("a".to_string())),
            Err(LexerError::UnexpectedCharacter('\t', 2)),
            Ok(Token::AccessToken("b".to_string())),
            Err(LexerError::UnexpectedCharacter('\n', 4)),
            Ok(Token::AccessToken("c".to_string())),
        ]
    );
}

#[test]
fn lexer_rejects_characters_outside_the_grammar() {
    assert_eq!(lex("!"), vec![Err(LexerError::UnexpectedCharacter('!', 1))]);
    assert_eq!(lex("é"), vec![Err(LexerError::UnexpectedCharacter('é', 1))]);
    assert_eq!(lex("\\"), vec![Err(LexerError::UnexpectedCharacter('\\', 1))]);
}

#[test]
fn lexer_quoted_token_may_be_empty() {
    assert_eq!(lex("\"\""), vec![Ok(Token::AccessToken(String::new()))]);
}

#[test]
fn lexer_quoted_token_holds_unicode_beyond_ascii() {
    assert_eq!(
        lex("\"\u{80}\u{d7ff}\u{e000}\u{10ffff}\""),
        vec![Ok(Token::AccessToken("\u{80}\u{d7ff}\u{e000}\u{10ffff}".to_string()))]
    );
}

#[test]
fn lexer_quoted_token_rejects_control_characters() {
    assert_eq!(
        lex("\"a\tb\""),
        vec![
            Err(LexerError::UnexpectedCharacter('\t', 3)),
            Ok(Token::AccessToken("b".to_string())),
            Ok(Token::AccessToken(String::new())),
        ]
    );
    assert_eq!(
        lex("\"\u{7f}"),
        vec![Err(LexerError::UnexpectedCharacter('\u{7f}', 2))]
    );
}

#[test]
fn lexer_backslash_escapes_quote_and_backslash_only() {
    assert_eq!(
        lex("\"a\\\"b\\\\c\""),
        vec![Ok(Token::AccessToken("a\"b\\c".to_string()))]
    );
    assert_eq!(
        lex("\"a\\nb\""),
        vec![
            Err(LexerError::UnexpectedCharacter('n', 4)),
            Ok(Token::AccessToken("b".to_string())),
            Ok(Token::AccessToken(String::new())),
        ]
    );
}

#[test]
fn lexer_quoted_token_ends_with_the_input() {
    assert_eq!(lex("\"abc"), vec![Ok(Token::AccessToken("abc".to_string()))]);
    assert_eq!(lex("\"abc\\"), vec![Ok(Token::AccessToken("abc".to_string()))]);
}

#[test]
fn lexer_positions_count_characters_not_bytes() {
    assert_eq!(
        lex("\"🕺\" x"),
        vec![
            Ok(Token::AccessToken("🕺".to_string())),
            Err(LexerError::UnexpectedCharacter(' ', 4)),
            Ok(Token::AccessToken("x".to_string())),
        ]
    );
}

#[test]
fn lexer_next_yields_one_token_at_a_time() {
    let mut lexer = Lexer::new("a&(b)");
    assert_eq!(lexer.next(), Some(Ok(Token::AccessToken("a".to_string()))));
    assert_eq!(lexer.next(), Some(Ok(Token::And)));
    assert_eq!(lexer.next(), Some(Ok(Token::OpenParen)));
    assert_eq!(lexer.next(), Some(Ok(Token::AccessToken("b".to_string()))));
    assert_eq!(lexer.next(), Some(Ok(Token::CloseParen)));
    assert_eq!(lexer.next(), None);
}

#[test]
fn lexer_read_and_peek() {
    let mut lexer = Lexer::new("ab");
    assert_eq!(lexer.peek_char(), Some('a'));
    assert_eq!(lexer.read_char(), Some('a'));
    assert_eq!(lexer.peek_char(), Some('b'));
    assert_eq!(lexer.read_char(), Some('b'));
    assert_eq!(lexer.peek_char(), None);
    assert_eq!(lexer.read_char(), None);
}

#[test]
fn lexer_clone_scans_the_rest_again() {
    let mut lexer = Lexer::new("a|b");
    assert_eq!(lexer.next(), Some(Ok(Token::AccessToken("a".to_string()))));
    let copy = lexer.clone();
    assert_eq!(
        lexer.collect(),
        vec![Ok(Token::Or), Ok(Token::AccessToken("b".to_string()))]
    );
    assert_eq!(
        copy.collect(),
        vec![Ok(Token::Or), Ok(Token::AccessToken("b".to_string()))]
    );
}

#[test]
fn token_and_lexer_error_messages() {
    assert_eq!(Token::OpenParen.to_string(), "(");
    assert_eq!(Token::CloseParen.to_string(), ")");
    assert_eq!(Token::And.to_string(), "&");
    assert_eq!(Token::Or.to_string(), "|");
    assert_eq!(Token::AccessToken("a\"b".to_string()).to_string(), "\"a\\\"b\"");
    assert_eq!(
        LexerError::UnexpectedCharacter(' ', 7).to_string(),
        "Unexpected character ' ' at position 7"
    );
    assert_eq!(
        LexerError::UnexpectedCharacter('[', 120).to_string(),
        "Unexpected character '[' at position 120"
    );
    assert_eq!(
        LexerError::UnexpectedCharacter('x', 0).to_string(),
        "Unexpected character 'x' at position 0"
    );
}

#[test]
fn debug_strings_are_framed_round_what_is_quoted() {
    assert_eq!(access_token_debug_string("\"a b\""), "AccessToken(\"a b\")");
    assert_eq!(access_token_debug_string(""), "AccessToken()");
    assert_eq!(unexpected_character_debug_string("'['", 10), "UnexpectedCharacter('[', 10)");
    assert_eq!(unexpected_character_debug_string("'\\n'", 0), "UnexpectedCharacter('\\n', 0)");
    assert_eq!(unexpected_token_message(")"), "Unexpected token: )");
    assert_eq!(unexpected_token_message("\"a\""), "Unexpected token: \"a\"");
}
