//! Lexical analysis: from characters to tokens.
//!
//! The token stream of an input is defined by [`lex`], a function on character
//! sequences. [`Lexer`] produces that stream one token at a time, reading the
//! input character by character.

use vstd::prelude::*;
use crate::text::char_debug_text;
use crate::text::debug_text;
use crate::text::decimal;
use crate::text::push_decimal;
use crate::text::split_first_char;
use crate::text::write_char_debug;
use crate::text::write_debug;
use vstd::string::StringExecFns;
use vstd::string::StrSliceExecFns;
use vstd::string::StringSliceAdditionalSpecFns;

verus! {

/// A lexical token of an authorization expression.
#[derive(Debug, PartialEq, Clone)]
pub enum Token {
    #[allow(clippy::enum_variant_names)]
    AccessToken(String),
    OpenParen,
    CloseParen,
    And,
    Or,
}

/// The mathematical value of a [`Token`]: an access token is its characters.
pub ghost enum TokenView {
    AccessToken(Seq<char>),
    OpenParen,
    CloseParen,
    And,
    Or,
}

impl View for Token {
    type V = TokenView;

    open spec fn view(&self) -> TokenView {
        match self {
            Token::AccessToken(value) => TokenView::AccessToken(value@),
            Token::OpenParen => TokenView::OpenParen,
            Token::CloseParen => TokenView::CloseParen,
            Token::And => TokenView::And,
            Token::Or => TokenView::Or,
        }
    }
}

impl TokenView {
    /// What the token is shown as in a message: an access token as a quoted
    /// string, any other token as its character.
    pub open spec fn message(self) -> Seq<char> {
        match self {
            TokenView::AccessToken(value) => debug_text(value),
            TokenView::OpenParen => "("@,
            TokenView::CloseParen => ")"@,
            TokenView::And => "&"@,
            TokenView::Or => "|"@,
        }
    }

    /// What `Debug` formatting writes for the token: the name of its
    /// variant, and for an access token its characters as a string literal
    /// in parentheses.
    pub open spec fn debug_form(self) -> Seq<char> {
        match self {
            TokenView::AccessToken(value) => "AccessToken("@ + debug_text(value) + ")"@,
            TokenView::OpenParen => "OpenParen"@,
            TokenView::CloseParen => "CloseParen"@,
            TokenView::And => "And"@,
            TokenView::Or => "Or"@,
        }
    }
}

impl Token {
    /// The token as it is shown in a message.
    pub fn to_string(&self) -> (text: String)
        ensures
            text@ == self@.message(),
    {
        match self {
            Token::AccessToken(value) => write_debug(value.as_str()),
            Token::OpenParen => "(".to_owned(),
            Token::CloseParen => ")".to_owned(),
            Token::And => "&".to_owned(),
            Token::Or => "|".to_owned(),
        }
    }

    /// The token as `Debug` formatting writes it.
    pub fn to_debug_string(&self) -> (text: String)
        ensures
            text@ == self@.debug_form(),
    {
        match self {
            Token::AccessToken(value) => access_token_debug_string(
                write_debug(value.as_str()).as_str(),
            ),
            Token::OpenParen => "OpenParen".to_owned(),
            Token::CloseParen => "CloseParen".to_owned(),
            Token::And => "And".to_owned(),
            Token::Or => "Or".to_owned(),
        }
    }
}

/// What `Debug` formatting writes for an access token, from the string
/// literal `quoted` that it writes for the token's characters.
pub fn access_token_debug_string(quoted: &str) -> (text: String)
    ensures
        text@ == "AccessToken("@ + quoted@ + ")"@,
{
    let mut text = "AccessToken(".to_owned();
    text.append(quoted);
    text.append(")");
    text
}

/// What `Debug` formatting writes for an unexpected character at `position`,
/// from the character literal `quoted` that it writes for the character.
pub fn unexpected_character_debug_string(quoted: &str, position: usize) -> (text: String)
    ensures
        text@ == "UnexpectedCharacter("@ + quoted@ + ", "@ + decimal(position as nat) + ")"@,
{
    let mut text = "UnexpectedCharacter(".to_owned();
    text.append(quoted);
    text.append(", ");
    push_decimal(&mut text, position);
    text.append(")");
    text
}

/// The two connectives of the expression language.
#[derive(Debug, PartialEq, Eq, Structural, Clone, Copy)]
pub enum Operator {
    Conjunction,
    Disjunction,
}

/// A character that the grammar does not allow where it stands. The number is
/// the 1-based count of the characters read up to and including it.
#[derive(Debug, PartialEq, Eq, Structural, Clone, Copy)]
pub enum LexerError {
    UnexpectedCharacter(char, usize),
}

impl LexerError {
    /// The message that tells of the error.
    pub open spec fn message(self) -> Seq<char> {
        match self {
            LexerError::UnexpectedCharacter(c, position) => "Unexpected character '"@ + seq![c]
                + "' at position "@ + decimal(position as nat),
        }
    }

    /// The message that tells of the error.
    pub fn to_string(&self) -> (text: String)
        ensures
            text@ == self.message(),
    {
        match self {
            LexerError::UnexpectedCharacter(c, position) => {
                let mut text = "Unexpected character '".to_owned();
                text.push(*c);
                text.append("' at position ");
                push_decimal(&mut text, *position);
                proof {
                    assert("Unexpected character '"@.push(*c) =~= "Unexpected character '"@
                        + seq![*c]);
                }
                text
            },
        }
    }

    /// What `Debug` formatting writes for the error: the name of its
    /// variant, and in parentheses the character as a character literal and
    /// the position in decimal.
    pub open spec fn debug_form(self) -> Seq<char> {
        match self {
            LexerError::UnexpectedCharacter(c, position) => "UnexpectedCharacter("@
                + char_debug_text(c) + ", "@ + decimal(position as nat) + ")"@,
        }
    }

    /// The error as `Debug` formatting writes it.
    pub fn to_debug_string(&self) -> (text: String)
        ensures
            text@ == self.debug_form(),
    {
        match self {
            LexerError::UnexpectedCharacter(c, position) => unexpected_character_debug_string(
                write_char_debug(*c).as_str(),
                *position,
            ),
        }
    }
}

/// One element of a token stream, as a mathematical value.
pub type LexItem = Result<TokenView, LexerError>;

/// The mathematical value of what [`Lexer::next`] yields.
pub open spec fn item_view(item: Result<Token, LexerError>) -> LexItem {
    match item {
        Ok(token) => Ok(token@),
        Err(e) => Err(e),
    }
}

/// The characters that an unquoted access token is made of: ASCII letters and
/// digits, `_`, `-`, `.`, `:` and `/`.
pub open spec fn is_unquoted_char(c: char) -> bool {
    ||| 'a' <= c <= 'z'
    ||| 'A' <= c <= 'Z'
    ||| '0' <= c <= '9'
    ||| c == '_'
    ||| c == '-'
    ||| c == '.'
    ||| c == ':'
    ||| c == '/'
}

/// The characters that may be read inside a quoted access token: the space,
/// printable ASCII, and everything beyond ASCII. The quote and the backslash
/// are among them and act as delimiter and escape.
pub open spec fn is_quoted_char(c: char) -> bool {
    ||| ' ' <= c <= '~'
    ||| 0x80 <= c as u32
}

/// A token, or a lexical error, together with the number of characters that
/// were read to produce it.
pub ghost struct Lexeme {
    pub item: LexItem,
    pub len: nat,
}

/// Index of the first character at or after `i` that cannot continue an
/// unquoted access token; the length of `s` if there is none.
pub open spec fn unquoted_end(s: Seq<char>, i: int) -> int
    decreases s.len() - i,
{
    if 0 <= i < s.len() && is_unquoted_char(s[i]) {
        unquoted_end(s, i + 1)
    } else {
        i
    }
}

/// The rest of a quoted access token. `s` holds the characters that follow the
/// opening quote, of which the first `i` were read and gave `value`; `base`
/// characters were read before `s` starts.
///
/// The token ends at the first unescaped quote, or where the input ends. A
/// backslash escapes a quote or a backslash and nothing else.
pub open spec fn quoted_rest(s: Seq<char>, i: int, value: Seq<char>, base: nat) -> Lexeme
    decreases s.len() - i,
{
    if !(0 <= i < s.len()) {
        Lexeme { item: Ok(TokenView::AccessToken(value)), len: s.len() }
    } else if !is_quoted_char(s[i]) {
        Lexeme {
            item: Err(LexerError::UnexpectedCharacter(s[i], (base + i + 1) as usize)),
            len: (i + 1) as nat,
        }
    } else if s[i] == '"' {
        Lexeme { item: Ok(TokenView::AccessToken(value)), len: (i + 1) as nat }
    } else if s[i] != '\\' {
        quoted_rest(s, i + 1, value.push(s[i]), base)
    } else if i + 1 == s.len() {
        Lexeme { item: Ok(TokenView::AccessToken(value)), len: s.len() }
    } else if s[i + 1] == '"' || s[i + 1] == '\\' {
        quoted_rest(s, i + 2, value.push(s[i + 1]), base)
    } else {
        Lexeme {
            item: Err(LexerError::UnexpectedCharacter(s[i + 1], (base + i + 2) as usize)),
            len: (i + 2) as nat,
        }
    }
}

/// The first lexeme of the non-empty input `s`, before which `base` characters
/// were read.
pub open spec fn first_lexeme(s: Seq<char>, base: nat) -> Lexeme {
    let c = s[0];
    if c == '(' {
        Lexeme { item: Ok(TokenView::OpenParen), len: 1 }
    } else if c == ')' {
        Lexeme { item: Ok(TokenView::CloseParen), len: 1 }
    } else if c == '&' {
        Lexeme { item: Ok(TokenView::And), len: 1 }
    } else if c == '|' {
        Lexeme { item: Ok(TokenView::Or), len: 1 }
    } else if c == '"' {
        let rest = quoted_rest(s.skip(1), 0, Seq::empty(), base + 1);
        Lexeme { item: rest.item, len: rest.len + 1 }
    } else if is_unquoted_char(c) {
        let end = unquoted_end(s, 0);
        Lexeme { item: Ok(TokenView::AccessToken(s.take(end))), len: end as nat }
    } else {
        Lexeme { item: Err(LexerError::UnexpectedCharacter(c, (base + 1) as usize)), len: 1 }
    }
}

/// An unquoted access token ends inside the input.
pub proof fn lemma_unquoted_end_bounds(s: Seq<char>, i: int)
    requires
        0 <= i <= s.len(),
    ensures
        i <= unquoted_end(s, i) <= s.len(),
    decreases s.len() - i,
{
    if i < s.len() && is_unquoted_char(s[i]) {
        lemma_unquoted_end_bounds(s, i + 1);
    }
}

/// Where an unquoted access token ends does not depend on what stands before
/// the place from which it is scanned.
pub proof fn lemma_unquoted_end_skip(s: Seq<char>, i: int)
    requires
        1 <= i <= s.len(),
    ensures
        unquoted_end(s, i) == unquoted_end(s.skip(1), i - 1) + 1,
    decreases s.len() - i,
{
    if i < s.len() && is_unquoted_char(s[i]) {
        lemma_unquoted_end_skip(s, i + 1);
    }
}

/// A quoted access token ends inside the input, and after what was read of it.
pub proof fn lemma_quoted_rest_bounds(s: Seq<char>, i: int, value: Seq<char>, base: nat)
    requires
        0 <= i <= s.len(),
    ensures
        i <= quoted_rest(s, i, value, base).len <= s.len(),
    decreases s.len() - i,
{
    if i < s.len() && is_quoted_char(s[i]) && s[i] != '"' {
        if s[i] != '\\' {
            lemma_quoted_rest_bounds(s, i + 1, value.push(s[i]), base);
        } else if i + 1 < s.len() && (s[i + 1] == '"' || s[i + 1] == '\\') {
            lemma_quoted_rest_bounds(s, i + 2, value.push(s[i + 1]), base);
        }
    }
}

/// A lexeme takes at least one character, and no more than there are.
pub proof fn lemma_first_lexeme_bounds(s: Seq<char>, base: nat)
    requires
        s.len() > 0,
    ensures
        1 <= first_lexeme(s, base).len <= s.len(),
{
    lemma_unquoted_end_bounds(s, 1);
    lemma_quoted_rest_bounds(s.skip(1), 0, Seq::empty(), base + 1);
}

/// The token stream of the input `s`, before which `base` characters were
/// read. Lexing goes on after an error, with the character that follows it.
pub open spec fn lex(s: Seq<char>, base: nat) -> Seq<LexItem>
    decreases s.len(),
    via lex_decreases
{
    if s.len() == 0 {
        Seq::empty()
    } else {
        let first = first_lexeme(s, base);
        seq![first.item] + lex(s.skip(first.len as int), base + first.len)
    }
}

#[via_fn]
proof fn lex_decreases(s: Seq<char>, base: nat) {
    if s.len() > 0 {
        lemma_first_lexeme_bounds(s, base);
    }
}

/// Whether `c` may stand in an unquoted access token.
pub fn is_allowed_char_for_unquoted_access_token(c: char) -> (allowed: bool)
    ensures
        allowed == is_unquoted_char(c),
{
    ('a' <= c && c <= 'z') || ('A' <= c && c <= 'Z') || ('0' <= c && c <= '9') || c == '_'
        || c == '-' || c == '.' || c == ':' || c == '/'
}

/// Whether `c` may be read inside a quoted access token.
pub fn is_allowed_char_for_quoted_access_token(c: char) -> (allowed: bool)
    ensures
        allowed == is_quoted_char(c),
{
    (' ' <= c && c <= '~') || c >= '\u{80}'
}

/// A lexical analyzer for authorization expressions. It yields the tokens of
/// its input in order, once; a new lexer scans an input again.
#[derive(Debug)]
pub struct Lexer<'a> {
    rest: &'a str,
    position: usize,
}

impl<'a> Clone for Lexer<'a> {
    fn clone(&self) -> (copy: Self)
        ensures
            copy == *self,
    {
        proof {
            use_type_invariant(self);
        }
        Lexer { rest: self.rest, position: self.position }
    }
}

impl<'a> Lexer<'a> {
    #[verifier::type_invariant]
    spec fn within_limits(&self) -> bool {
        self.position + self.rest@.len() <= usize::MAX
    }

    /// The characters that were not read yet.
    pub closed spec fn remaining(&self) -> Seq<char> {
        self.rest@
    }

    /// The number of characters that were read.
    pub closed spec fn consumed(&self) -> nat {
        self.position as nat
    }

    /// The tokens that the lexer has yet to yield.
    pub open spec fn tokens(&self) -> Seq<LexItem> {
        lex(self.remaining(), self.consumed())
    }

    /// Creates a lexer for the expression `input`.
    pub fn new(input: &'a str) -> (lexer: Self)
        ensures
            lexer.remaining() == input@,
            lexer.consumed() == 0,
    {
        let bytes = input.as_bytes();
        let byte_len = bytes.len();
        proof {
            crate::text::lemma_encoding_not_shorter(input@);
        }
        Lexer { rest: input, position: 0 }
    }

    /// Reads one character, if any is left.
    pub fn read_char(&mut self) -> (c: Option<char>)
        ensures
            old(self).remaining().len() == 0 ==> c is None && *final(self) == *old(self),
            old(self).remaining().len() > 0 ==> c == Some(old(self).remaining()[0])
                && final(self).remaining() == old(self).remaining().skip(1)
                && final(self).consumed() == old(self).consumed() + 1,
    {
        proof {
            use_type_invariant(&*self);
        }
        if self.rest.is_empty() {
            None
        } else {
            let (c, tail) = split_first_char(self.rest);
            self.rest = tail;
            self.position = self.position + 1;
            Some(c)
        }
    }

    /// The character that `read_char` would read next, without reading it.
    pub fn peek_char(&self) -> (c: Option<char>)
        ensures
            self.remaining().len() == 0 ==> c is None,
            self.remaining().len() > 0 ==> c == Some(self.remaining()[0]),
    {
        if self.rest.is_empty() {
            None
        } else {
            Some(self.rest.get_char(0))
        }
    }

    /// The next token of the input, or the lexical error that stands in its
    /// place; `None` once the input is exhausted.
    pub fn next(&mut self) -> (item: Option<Result<Token, LexerError>>)
        ensures
            old(self).remaining().len() == 0 ==> item is None && *final(self) == *old(self),
            old(self).remaining().len() > 0 ==> ({
                let lexeme = first_lexeme(old(self).remaining(), old(self).consumed());
                &&& item matches Some(found)
                &&& item_view(found) == lexeme.item
                &&& final(self).remaining() == old(self).remaining().skip(lexeme.len as int)
                &&& final(self).consumed() == old(self).consumed() + lexeme.len
            }),
            item is None <==> old(self).tokens().len() == 0,
            item matches Some(found) ==> item_view(found) == old(self).tokens()[0]
                && final(self).tokens() == old(self).tokens().drop_first(),
    {
        let ghost input = self.remaining();
        let ghost base = self.consumed();
        proof {
            use_type_invariant(&*self);
            if input.len() > 0 {
                let lexeme = first_lexeme(input, base);
                assert(lex(input, base).drop_first() == lex(
                    input.skip(lexeme.len as int),
                    base + lexeme.len,
                ));
            }
        }
        let c = match self.read_char() {
            Some(c) => c,
            None => {
                return None;
            },
        };
        let found = if c == '(' {
            Ok(Token::OpenParen)
        } else if c == ')' {
            Ok(Token::CloseParen)
        } else if c == '&' {
            Ok(Token::And)
        } else if c == '|' {
            Ok(Token::Or)
        } else if c == '"' {
            self.handle_quoted_access_token()
        } else if is_allowed_char_for_unquoted_access_token(c) {
            proof {
                let rest = input.skip(1);
                let end = unquoted_end(rest, 0);
                lemma_unquoted_end_bounds(rest, 0);
                lemma_unquoted_end_skip(input, 1);
                assert(input.take(end + 1) == seq![c] + rest.take(end));
                assert(rest.skip(end) == input.skip(end + 1));
            }
            self.handle_unquoted_access_token(c)
        } else {
            Err(LexerError::UnexpectedCharacter(c, self.position))
        };
        proof {
            let lexeme = first_lexeme(input, base);
            if c == '"' {
                lemma_quoted_rest_bounds(input.skip(1), 0, Seq::empty(), base + 1);
                assert(input.skip(1).skip(lexeme.len - 1) == input.skip(lexeme.len as int));
            }
        }
        Some(found)
    }

    /// All the tokens that the lexer has yet to yield, in order.
    pub fn collect(self) -> (items: Vec<Result<Token, LexerError>>)
        ensures
            items@.map_values(|item| item_view(item)) == self.tokens(),
    {
        let mut lexer = self;
        let mut items: Vec<Result<Token, LexerError>> = Vec::new();
        loop
            invariant
                items@.map_values(|item| item_view(item)) + lexer.tokens() == self.tokens(),
            ensures
                items@.map_values(|item| item_view(item)) == self.tokens(),
            decreases lexer.remaining().len(),
        {
            let ghost before = lexer.tokens();
            let ghost pending = lexer.remaining();
            let ghost base = lexer.consumed();
            match lexer.next() {
                Some(found) => {
                    proof {
                        lemma_first_lexeme_bounds(pending, base);
                        assert(before == seq![item_view(found)] + lexer.tokens());
                        assert(items@.push(found).map_values(|item| item_view(item))
                            == items@.map_values(|item| item_view(item)).push(item_view(found)));
                    }
                    items.push(found);
                },
                None => {
                    break ;
                },
            }
        }
        items
    }

    /// Reads the rest of an unquoted access token whose first character,
    /// `first_char`, was read already.
    fn handle_unquoted_access_token(&mut self, first_char: char) -> (token: Result<
        Token,
        LexerError,
    >)
        ensures
            ({
                let rest = old(self).remaining();
                let end = unquoted_end(rest, 0);
                &&& token matches Ok(Token::AccessToken(value))
                &&& value@ == seq![first_char] + rest.take(end)
                &&& final(self).remaining() == rest.skip(end)
                &&& final(self).consumed() == old(self).consumed() + end
            }),
    {
        let mut value = String::new();
        value.push(first_char);
        let ghost rest = self.remaining();
        let ghost base = self.consumed();
        let ghost mut i: int = 0;
        loop
            invariant
                0 <= i <= rest.len(),
                self.remaining() == rest.skip(i),
                self.consumed() == base + i,
                value@ == seq![first_char] + rest.take(i),
                unquoted_end(rest, i) == unquoted_end(rest, 0),
            ensures
                i == unquoted_end(rest, 0),
            decreases rest.len() - i,
        {
            match self.peek_char() {
                Some(c) => {
                    if is_allowed_char_for_unquoted_access_token(c) {
                        self.read_char();
                        value.push(c);
                        proof {
                            assert(rest.skip(i).skip(1) == rest.skip(i + 1));
                            assert(rest.take(i + 1) == rest.take(i).push(rest[i]));
                            assert((seq![first_char] + rest.take(i)).push(rest[i]) == seq![
                                first_char,
                            ] + rest.take(i + 1));
                            i = i + 1;
                        }
                    } else {
                        break ;
                    }
                },
                None => {
                    break ;
                },
            }
        }
        Ok(Token::AccessToken(value))
    }

    /// Reads the rest of a quoted access token whose opening quote was read
    /// already.
    fn handle_quoted_access_token(&mut self) -> (token: Result<Token, LexerError>)
        ensures
            ({
                let rest = old(self).remaining();
                let lexeme = quoted_rest(rest, 0, Seq::empty(), old(self).consumed());
                &&& item_view(token) == lexeme.item
                &&& final(self).remaining() == rest.skip(lexeme.len as int)
                &&& final(self).consumed() == old(self).consumed() + lexeme.len
            }),
    {
        let mut value = String::new();
        let ghost rest = self.remaining();
        let ghost base = self.consumed();
        let ghost mut i: int = 0;
        proof {
            use_type_invariant(&*self);
        }
        loop
            invariant_except_break
                quoted_rest(rest, i, value@, base) == quoted_rest(rest, 0, Seq::empty(), base),
            invariant
                rest == old(self).remaining(),
                base == old(self).consumed(),
                0 <= i <= rest.len(),
                base + rest.len() <= usize::MAX,
                self.remaining() == rest.skip(i),
                self.consumed() == base + i,
            ensures
                0 <= i <= rest.len(),
                self.remaining() == rest.skip(i),
                self.consumed() == base + i,
                quoted_rest(rest, 0, Seq::empty(), base) == (Lexeme {
                    item: Ok(TokenView::AccessToken(value@)),
                    len: i as nat,
                }),
            decreases rest.len() - i,
        {
            match self.read_char() {
                None => {
                    break ;
                },
                Some(c) => {
                    proof {
                        assert(rest.skip(i).skip(1) == rest.skip(i + 1));
                    }
                    if !is_allowed_char_for_quoted_access_token(c) {
                        return Err(LexerError::UnexpectedCharacter(c, self.position));
                    }
                    if c == '"' {
                        proof {
                            i = i + 1;
                        }
                        break ;
                    } else if c == '\\' {
                        match self.read_char() {
                            Some(next_char) => {
                                proof {
                                    assert(rest.skip(i + 1).skip(1) == rest.skip(i + 2));
                                }
                                if next_char == '"' || next_char == '\\' {
                                    value.push(next_char);
                                    proof {
                                        i = i + 2;
                                    }
                                } else {
                                    return Err(
                                        LexerError::UnexpectedCharacter(next_char, self.position),
                                    );
                                }
                            },
                            None => {
                                proof {
                                    i = i + 1;
                                }
                                break ;
                            },
                        }
                    } else {
                        value.push(c);
                        proof {
                            i = i + 1;
                        }
                    }
                },
            }
        }
        Ok(Token::AccessToken(value))
    }
}

} // verus!
