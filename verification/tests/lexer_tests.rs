use minilang::lexer::{lex, LexErrorKind, LexerError, Token};

fn ident(name: &str) -> Token {
    Token::Identifier(name.to_string())
}

#[test]
fn test_lex_function() {
    let input = "fn add(a: int, b: int) -> int { return a + b; }";
    let tokens = lex(input).unwrap();
    let expected = [
        Token::Function,
        Token::Identifier("add".to_string()),
        Token::LeftParen,
        Token::Identifier("a".to_string()),
        Token::Colon,
        Token::TypeInt,
        Token::Comma,
        Token::Identifier("b".to_string()),
        Token::Colon,
        Token::TypeInt,
        Token::RightParen,
        Token::Arrow,
        Token::TypeInt,
        Token::LeftBrace,
        Token::Return,
        Token::Identifier("a".to_string()),
        Token::Plus,
        Token::Identifier("b".to_string()),
        Token::Semicolon,
        Token::RightBrace,
        Token::Eof,
    ];
    assert_eq!(tokens, expected);
}

#[test]
fn empty_input_is_one_end_token() {
    assert_eq!(lex("").unwrap(), vec![Token::Eof]);
    assert_eq!(lex("  \t\r\n ").unwrap(), vec![Token::Eof]);
}

#[test]
fn assignment_and_equality_are_told_apart() {
    assert_eq!(lex("a=b").unwrap(), vec![ident("a"), Token::Assign, ident("b"), Token::Eof]);
    assert_eq!(lex("a==b").unwrap(), vec![ident("a"), Token::Equal, ident("b"), Token::Eof]);
    assert_eq!(
        lex("a===b").unwrap(),
        vec![ident("a"), Token::Equal, Token::Assign, ident("b"), Token::Eof]
    );
}

#[test]
fn bare_bang_is_an_incomplete_operator() {
    assert_eq!(lex("!"), Err(LexerError { kind: LexErrorKind::IncompleteOperator, position: 1 }));
    assert_eq!(lex("a ! b"), Err(LexerError { kind: LexErrorKind::IncompleteOperator, position: 3 }));
}

#[test]
fn single_ampersand_and_bar_are_incomplete_operators() {
    assert_eq!(lex("a & b"), Err(LexerError { kind: LexErrorKind::IncompleteOperator, position: 3 }));
    assert_eq!(lex("a |"), Err(LexerError { kind: LexErrorKind::IncompleteOperator, position: 3 }));
    assert_eq!(lex("a && b || c").unwrap(), vec![
        ident("a"),
        Token::And,
        ident("b"),
        Token::Or,
        ident("c"),
        Token::Eof,
    ]);
}

#[test]
fn two_character_operators() {
    assert_eq!(lex("- -> < <= > >= != ==").unwrap(), vec![
        Token::Minus,
        Token::Arrow,
        Token::Less,
        Token::LessEqual,
        Token::Greater,
        Token::GreaterEqual,
        Token::NotEqual,
        Token::Equal,
        Token::Eof,
    ]);
}

#[test]
fn punctuation_and_arithmetic() {
    assert_eq!(lex("(){}:;,+*/").unwrap(), vec![
        Token::LeftParen,
        Token::RightParen,
        Token::LeftBrace,
        Token::RightBrace,
        Token::Colon,
        Token::Semicolon,
        Token::Comma,
        Token::Plus,
        Token::Star,
        Token::Slash,
        Token::Eof,
    ]);
}

#[test]
fn keywords_are_case_sensitive_whole_words() {
    assert_eq!(lex("fn return let if else while true false int bool void").unwrap(), vec![
        Token::Function,
        Token::Return,
        Token::Let,
        Token::If,
        Token::Else,
        Token::While,
        Token::True,
        Token::False,
        Token::TypeInt,
        Token::TypeBool,
        Token::TypeVoid,
        Token::Eof,
    ]);
    assert_eq!(lex("Fn lets iff int_ x1 a_b").unwrap(), vec![
        ident("Fn"),
        ident("lets"),
        ident("iff"),
        ident("int_"),
        ident("x1"),
        ident("a_b"),
        Token::Eof,
    ]);
}

#[test]
fn integer_literals_round_trip() {
    for n in [0i64, 1, 9, 10, 42, 1234567890, i64::MAX - 1, i64::MAX] {
        assert_eq!(lex(&n.to_string()).unwrap(), vec![Token::Integer(n), Token::Eof]);
    }
    assert_eq!(lex("007").unwrap(), vec![Token::Integer(7), Token::Eof]);
}

#[test]
fn integer_too_large_is_invalid() {
    assert_eq!(
        lex("x = 9223372036854775808;"),
        Err(LexerError {
            kind: LexErrorKind::InvalidInteger { text: "9223372036854775808".to_string() },
            position: 4,
        })
    );
    assert_eq!(
        lex("99999999999999999999999999"),
        Err(LexerError {
            kind: LexErrorKind::InvalidInteger { text: "99999999999999999999999999".to_string() },
            position: 0,
        })
    );
}

#[test]
fn number_followed_by_letters_is_two_tokens() {
    assert_eq!(lex("12ab").unwrap(), vec![Token::Integer(12), ident("ab"), Token::Eof]);
}

#[test]
fn unexpected_character_carries_its_offset() {
    assert_eq!(
        lex("a # b"),
        Err(LexerError { kind: LexErrorKind::UnexpectedCharacter { character: '#' }, position: 2 })
    );
    assert_eq!(
        lex("_x"),
        Err(LexerError { kind: LexErrorKind::UnexpectedCharacter { character: '_' }, position: 0 })
    );
}

#[test]
fn positions_count_characters_not_bytes() {
    assert_eq!(
        lex("é = ?"),
        Err(LexerError { kind: LexErrorKind::UnexpectedCharacter { character: '?' }, position: 4 })
    );
}

#[test]
fn letters_beyond_ascii_form_words() {
    assert_eq!(lex("größe = 1").unwrap(), vec![
        ident("größe"),
        Token::Assign,
        Token::Integer(1),
        Token::Eof,
    ]);
    assert_eq!(lex("a\u{a0}b").unwrap(), vec![ident("a"), ident("b"), Token::Eof]);
}
