//! The lexer: source text to tokens.
//!
//! [`lex_spec`] says which tokens a text consists of, one maximal token at a
//! time from left to right, and [`lex`] computes exactly that.

use vstd::prelude::*;
use crate::chars::{
    is_digit, is_letter, is_space, is_word_char, char_is_digit, char_is_letter, char_is_space,
    char_is_word_char, chars_of, string_of, text_is,
};
use crate::decimal::{decimal_text, decimal_value, digit_of, lemma_decimal_text};
pub use crate::token::{tokens_view, Token, TokenView};

verus! {

/// Why a text is not a sequence of tokens.
#[derive(Debug, Clone, PartialEq, Eq)]
pub enum LexErrorKind {
    /// A run of digits that denotes more than a signed 64-bit integer holds.
    InvalidInteger { text: String },
    /// A character that begins no token.
    UnexpectedCharacter { character: char },
    /// A `!`, `&` or `|` without the character that must follow it.
    IncompleteOperator,
}

pub enum LexErrorKindView {
    InvalidInteger { text: Seq<char> },
    UnexpectedCharacter { character: char },
    IncompleteOperator,
}

impl View for LexErrorKind {
    type V = LexErrorKindView;

    open spec fn view(&self) -> LexErrorKindView {
        match self {
            LexErrorKind::InvalidInteger { text } => LexErrorKindView::InvalidInteger { text: text@ },
            LexErrorKind::UnexpectedCharacter { character } => LexErrorKindView::UnexpectedCharacter {
                character: *character,
            },
            LexErrorKind::IncompleteOperator => LexErrorKindView::IncompleteOperator,
        }
    }
}

/// The first lexical error of a text, with the character offset it is
/// reported at.
#[derive(Debug, Clone, PartialEq, Eq)]
pub struct LexerError {
    pub kind: LexErrorKind,
    pub position: usize,
}

pub struct LexerErrorView {
    pub kind: LexErrorKindView,
    pub position: nat,
}

impl View for LexerError {
    type V = LexerErrorView;

    open spec fn view(&self) -> LexerErrorView {
        LexerErrorView { kind: self.kind@, position: self.position as nat }
    }
}

/// The end of the longest run of word characters that starts at `i`.
pub open spec fn word_end(s: Seq<char>, i: int) -> int
    decreases s.len() - i,
{
    if 0 <= i < s.len() && is_word_char(s[i]) {
        word_end(s, i + 1)
    } else {
        i
    }
}

/// The end of the longest run of digits that starts at `i`.
pub open spec fn digits_end(s: Seq<char>, i: int) -> int
    decreases s.len() - i,
{
    if 0 <= i < s.len() && is_digit(s[i]) {
        digits_end(s, i + 1)
    } else {
        i
    }
}

/// The token that a word is: a keyword or type name where the word is one
/// of the reserved ones, letter for letter, and an identifier otherwise.
pub open spec fn word_token(word: Seq<char>) -> TokenView {
    if word == "fn"@ {
        TokenView::Function
    } else if word == "return"@ {
        TokenView::Return
    } else if word == "let"@ {
        TokenView::Let
    } else if word == "if"@ {
        TokenView::If
    } else if word == "else"@ {
        TokenView::Else
    } else if word == "while"@ {
        TokenView::While
    } else if word == "true"@ {
        TokenView::True
    } else if word == "false"@ {
        TokenView::False
    } else if word == "int"@ {
        TokenView::TypeInt
    } else if word == "bool"@ {
        TokenView::TypeBool
    } else if word == "void"@ {
        TokenView::TypeVoid
    } else {
        TokenView::Identifier(word)
    }
}

/// The character at `i` exists and is `c`.
pub open spec fn char_at_is(s: Seq<char>, i: int, c: char) -> bool {
    0 <= i < s.len() && s[i] == c
}

/// The token with a single-character spelling `c`, if there is one.
pub open spec fn single_char_token(c: char) -> Option<TokenView> {
    if c == '+' {
        Some(TokenView::Plus)
    } else if c == '*' {
        Some(TokenView::Star)
    } else if c == '/' {
        Some(TokenView::Slash)
    } else if c == '(' {
        Some(TokenView::LeftParen)
    } else if c == ')' {
        Some(TokenView::RightParen)
    } else if c == '{' {
        Some(TokenView::LeftBrace)
    } else if c == '}' {
        Some(TokenView::RightBrace)
    } else if c == ':' {
        Some(TokenView::Colon)
    } else if c == ';' {
        Some(TokenView::Semicolon)
    } else if c == ',' {
        Some(TokenView::Comma)
    } else {
        None
    }
}

/// For a character that begins both a one-character and a two-character
/// token: the second character of the longer one, the longer token and the
/// shorter token.
pub open spec fn optional_pair(c: char) -> Option<(char, TokenView, TokenView)> {
    if c == '-' {
        Some(('>', TokenView::Arrow, TokenView::Minus))
    } else if c == '=' {
        Some(('=', TokenView::Equal, TokenView::Assign))
    } else if c == '<' {
        Some(('=', TokenView::LessEqual, TokenView::Less))
    } else if c == '>' {
        Some(('=', TokenView::GreaterEqual, TokenView::Greater))
    } else {
        None
    }
}

/// For a character that begins a two-character token only: the second
/// character and the token.
pub open spec fn required_pair(c: char) -> Option<(char, TokenView)> {
    if c == '!' {
        Some(('=', TokenView::NotEqual))
    } else if c == '&' {
        Some(('&', TokenView::And))
    } else if c == '|' {
        Some(('|', TokenView::Or))
    } else {
        None
    }
}

/// The token that begins at `i`, where `s[i]` is not white space, together
/// with the offset just behind it; or the error that `s[i]` causes.
///
/// A word is as long as it can be and begins with a letter. A number is as
/// long as it can be and must fit a signed 64-bit integer; the error for one
/// that does not carries its text and the offset of its first digit. An
/// operator takes a second character whenever that gives a token; `!`, `&`
/// and `|` alone are errors, reported at the offset behind them. Any other
/// character is an error at its own offset.
pub open spec fn token_at(s: Seq<char>, i: int) -> Result<(TokenView, int), LexerErrorView> {
    let c = s[i];
    if is_letter(c) {
        let j = word_end(s, i + 1);
        Ok((word_token(s.subrange(i, j)), j))
    } else if is_digit(c) {
        let j = digits_end(s, i + 1);
        let text = s.subrange(i, j);
        if decimal_value(text) <= i64::MAX {
            Ok((TokenView::Integer(decimal_value(text) as i64), j))
        } else {
            Err(LexerErrorView { kind: LexErrorKindView::InvalidInteger { text }, position: i as nat })
        }
    } else if let Some((second, long, short)) = optional_pair(c) {
        if char_at_is(s, i + 1, second) {
            Ok((long, i + 2))
        } else {
            Ok((short, i + 1))
        }
    } else if let Some((second, token)) = required_pair(c) {
        if char_at_is(s, i + 1, second) {
            Ok((token, i + 2))
        } else {
            Err(LexerErrorView { kind: LexErrorKindView::IncompleteOperator, position: (i + 1) as nat })
        }
    } else if let Some(token) = single_char_token(c) {
        Ok((token, i + 1))
    } else {
        Err(
            LexerErrorView {
                kind: LexErrorKindView::UnexpectedCharacter { character: c },
                position: i as nat,
            },
        )
    }
}

/// `first` followed by what `rest` holds, or the error in `rest`.
pub open spec fn tokens_then(first: Seq<TokenView>, rest: Result<Seq<TokenView>, LexerErrorView>) -> Result<
    Seq<TokenView>,
    LexerErrorView,
> {
    match rest {
        Ok(tokens) => Ok(first + tokens),
        Err(e) => Err(e),
    }
}

/// The tokens of `s` from offset `i` on, closed by the end-of-input token;
/// or the first error from `i` on.
pub open spec fn lex_from(s: Seq<char>, i: int) -> Result<Seq<TokenView>, LexerErrorView>
    decreases s.len() - i,
{
    if i < 0 || i >= s.len() {
        Ok(seq![TokenView::Eof])
    } else if is_space(s[i]) {
        lex_from(s, i + 1)
    } else {
        match token_at(s, i) {
            Ok((token, j)) => {
                proof {
                    lemma_token_at_advances(s, i);
                }
                tokens_then(seq![token], lex_from(s, j))
            },
            Err(e) => Err(e),
        }
    }
}

/// The tokens of the text `s`, or its first lexical error.
pub open spec fn lex_spec(s: Seq<char>) -> Result<Seq<TokenView>, LexerErrorView> {
    lex_from(s, 0)
}

/// A token sequence with the end-of-input token at its end and nowhere else.
pub open spec fn ends_with_single_eof(tokens: Seq<TokenView>) -> bool {
    &&& tokens.len() >= 1
    &&& tokens.last() == TokenView::Eof
    &&& forall|k: int| 0 <= k < tokens.len() - 1 ==> tokens[k] != TokenView::Eof
}

pub proof fn lemma_word_end_bounds(s: Seq<char>, i: int)
    requires
        0 <= i <= s.len(),
    ensures
        i <= word_end(s, i) <= s.len(),
        forall|k: int| i <= k < word_end(s, i) ==> is_word_char(#[trigger] s[k]),
        word_end(s, i) < s.len() ==> !is_word_char(s[word_end(s, i)]),
    decreases s.len() - i,
{
    if i < s.len() && is_word_char(s[i]) {
        lemma_word_end_bounds(s, i + 1);
    }
}

pub proof fn lemma_digits_end_bounds(s: Seq<char>, i: int)
    requires
        0 <= i <= s.len(),
    ensures
        i <= digits_end(s, i) <= s.len(),
        forall|k: int| i <= k < digits_end(s, i) ==> is_digit(#[trigger] s[k]),
        digits_end(s, i) < s.len() ==> !is_digit(s[digits_end(s, i)]),
    decreases s.len() - i,
{
    if i < s.len() && is_digit(s[i]) {
        lemma_digits_end_bounds(s, i + 1);
    }
}

/// A token is at least one character long and ends within the text.
pub proof fn lemma_token_at_advances(s: Seq<char>, i: int)
    requires
        0 <= i < s.len(),
    ensures
        token_at(s, i) matches Ok((_, j)) ==> i < j <= s.len(),
{
    lemma_word_end_bounds(s, i + 1);
    lemma_digits_end_bounds(s, i + 1);
}

/// No token inside a text is the end-of-input token.
pub proof fn lemma_token_at_not_eof(s: Seq<char>, i: int)
    requires
        0 <= i < s.len(),
    ensures
        token_at(s, i) matches Ok((token, _)) ==> token != TokenView::Eof,
{
}

/// Whatever the text, its tokens end with the end-of-input token, which
/// occurs nowhere else among them.
pub proof fn lemma_lex_ends_with_single_eof(s: Seq<char>, i: int)
    ensures
        lex_from(s, i) matches Ok(tokens) ==> ends_with_single_eof(tokens),
    decreases s.len() - i,
{
    if i < 0 || i >= s.len() {
    } else if is_space(s[i]) {
        lemma_lex_ends_with_single_eof(s, i + 1);
    } else {
        match token_at(s, i) {
            Ok((token, j)) => {
                lemma_token_at_advances(s, i);
                lemma_token_at_not_eof(s, i);
                lemma_lex_ends_with_single_eof(s, j);
                if let Ok(rest) = lex_from(s, j) {
                    let all = seq![token] + rest;
                    assert(all.last() == rest.last());
                    assert forall|k: int| 0 <= k < all.len() - 1 implies all[k] != TokenView::Eof by {
                        if k > 0 {
                            assert(all[k] == rest[k - 1]);
                        }
                    }
                }
            },
            Err(_) => {},
        }
    }
}

/// The decimal notation of a non-negative 64-bit integer is one token: that
/// integer.
pub proof fn lemma_lex_integer_literal(n: nat)
    requires
        n <= i64::MAX,
    ensures
        lex_spec(decimal_text(n)) == Ok::<Seq<TokenView>, LexerErrorView>(
            seq![TokenView::Integer(n as i64), TokenView::Eof],
        ),
{
    let s = decimal_text(n);
    lemma_decimal_text(n);
    lemma_run_of_digits(s, 1);
    assert(is_digit(s[0]));
    assert(s.subrange(0, s.len() as int) =~= s);
    assert(token_at(s, 0) == Ok::<(TokenView, int), LexerErrorView>(
        (TokenView::Integer(n as i64), s.len() as int),
    ));
    assert(lex_from(s, s.len() as int) == Ok::<Seq<TokenView>, LexerErrorView>(seq![TokenView::Eof]));
    assert(seq![TokenView::Integer(n as i64)] + seq![TokenView::Eof] =~= seq![
        TokenView::Integer(n as i64),
        TokenView::Eof,
    ]);
}

/// In a text of digits only, a run of digits stops at the end of the text.
pub proof fn lemma_run_of_digits(s: Seq<char>, i: int)
    requires
        0 <= i <= s.len(),
        forall|k: int| 0 <= k < s.len() ==> is_digit(#[trigger] s[k]),
    ensures
        digits_end(s, i) == s.len(),
    decreases s.len() - i,
{
    if i < s.len() {
        lemma_run_of_digits(s, i + 1);
    }
}

/// The result of a lexer run as a mathematical value.
pub open spec fn lex_result_view(result: Result<Vec<Token>, LexerError>) -> Result<
    Seq<TokenView>,
    LexerErrorView,
> {
    match result {
        Ok(tokens) => Ok(tokens_view(tokens@)),
        Err(e) => Err(e@),
    }
}

/// Finds the end of the word that begins at `start`.
fn scan_word(chars: &Vec<char>, start: usize) -> (end: usize)
    requires
        start < chars.len(),
    ensures
        end == word_end(chars@, start + 1),
        start < end <= chars.len(),
{
    let mut j: usize = start + 1;
    while j < chars.len() && char_is_word_char(chars[j])
        invariant
            start < j <= chars.len(),
            word_end(chars@, start + 1) == word_end(chars@, j as int),
        decreases chars.len() - j,
    {
        j += 1;
    }
    j
}

/// Finds the end of the number that begins at `start` and computes its
/// value, or `None` where the value does not fit.
fn scan_number(chars: &Vec<char>, start: usize) -> (r: (usize, Option<i64>))
    requires
        start < chars.len(),
        is_digit(chars@[start as int]),
    ensures
        r.0 == digits_end(chars@, start + 1),
        start < r.0 <= chars.len(),
        match r.1 {
            Some(v) => v == decimal_value(chars@.subrange(start as int, r.0 as int)),
            None => decimal_value(chars@.subrange(start as int, r.0 as int)) > i64::MAX,
        },
{
    let mut value: i64 = 0;
    let mut fits: bool = true;
    let mut j: usize = start;
    assert(chars@.subrange(start as int, start as int) =~= Seq::<char>::empty());
    while j < chars.len() && char_is_digit(chars[j])
        invariant
            start <= j <= chars.len(),
            is_digit(chars@[start as int]),
            j == start || digits_end(chars@, start + 1) == digits_end(chars@, j as int),
            fits ==> 0 <= value && value == decimal_value(chars@.subrange(start as int, j as int)),
            !fits ==> decimal_value(chars@.subrange(start as int, j as int)) > i64::MAX,
        decreases chars.len() - j,
    {
        let d: u8 = digit_of(chars[j]);
        proof {
            let longer = chars@.subrange(start as int, j + 1);
            assert(longer.drop_last() =~= chars@.subrange(start as int, j as int));
            assert(longer.last() == chars@[j as int]);
        }
        if fits {
            if value <= (i64::MAX - d as i64) / 10 {
                value = value * 10 + d as i64;
            } else {
                fits = false;
            }
        }
        j += 1;
    }
    if fits {
        (j, Some(value))
    } else {
        (j, None)
    }
}

/// The keyword, type name or identifier that the word `chars[start..end]` is.
fn word_to_token(chars: &Vec<char>, start: usize, end: usize) -> (token: Token)
    requires
        start <= end <= chars.len(),
    ensures
        token@ == word_token(chars@.subrange(start as int, end as int)),
{
    if text_is(chars, start, end, "fn") {
        Token::Function
    } else if text_is(chars, start, end, "return") {
        Token::Return
    } else if text_is(chars, start, end, "let") {
        Token::Let
    } else if text_is(chars, start, end, "if") {
        Token::If
    } else if text_is(chars, start, end, "else") {
        Token::Else
    } else if text_is(chars, start, end, "while") {
        Token::While
    } else if text_is(chars, start, end, "true") {
        Token::True
    } else if text_is(chars, start, end, "false") {
        Token::False
    } else if text_is(chars, start, end, "int") {
        Token::TypeInt
    } else if text_is(chars, start, end, "bool") {
        Token::TypeBool
    } else if text_is(chars, start, end, "void") {
        Token::TypeVoid
    } else {
        Token::Identifier(string_of(chars, start, end))
    }
}

/// Reads the token that begins at `start`.
fn scan_token(chars: &Vec<char>, start: usize) -> (r: Result<(Token, usize), LexerError>)
    requires
        start < chars.len(),
    ensures
        match token_at(chars@, start as int) {
            Ok((token, end)) => r matches Ok((t, e)) && t@ == token && e == end,
            Err(e) => r matches Err(err) && err@ == e,
        },
        r matches Ok((_, e)) ==> start < e <= chars.len(),
{
    let c: char = chars[start];
    let followed_by_equal: bool = start + 1 < chars.len() && chars[start + 1] == '=';
    if char_is_letter(c) {
        let end: usize = scan_word(chars, start);
        Ok((word_to_token(chars, start, end), end))
    } else if char_is_digit(c) {
        let (end, value) = scan_number(chars, start);
        match value {
            Some(v) => Ok((Token::Integer(v), end)),
            None => Err(
                LexerError {
                    kind: LexErrorKind::InvalidInteger { text: string_of(chars, start, end) },
                    position: start,
                },
            ),
        }
    } else if c == '-' {
        if start + 1 < chars.len() && chars[start + 1] == '>' {
            Ok((Token::Arrow, start + 2))
        } else {
            Ok((Token::Minus, start + 1))
        }
    } else if c == '=' {
        if followed_by_equal {
            Ok((Token::Equal, start + 2))
        } else {
            Ok((Token::Assign, start + 1))
        }
    } else if c == '<' {
        if followed_by_equal {
            Ok((Token::LessEqual, start + 2))
        } else {
            Ok((Token::Less, start + 1))
        }
    } else if c == '>' {
        if followed_by_equal {
            Ok((Token::GreaterEqual, start + 2))
        } else {
            Ok((Token::Greater, start + 1))
        }
    } else if c == '!' {
        if followed_by_equal {
            Ok((Token::NotEqual, start + 2))
        } else {
            Err(LexerError { kind: LexErrorKind::IncompleteOperator, position: start + 1 })
        }
    } else if c == '&' {
        if start + 1 < chars.len() && chars[start + 1] == '&' {
            Ok((Token::And, start + 2))
        } else {
            Err(LexerError { kind: LexErrorKind::IncompleteOperator, position: start + 1 })
        }
    } else if c == '|' {
        if start + 1 < chars.len() && chars[start + 1] == '|' {
            Ok((Token::Or, start + 2))
        } else {
            Err(LexerError { kind: LexErrorKind::IncompleteOperator, position: start + 1 })
        }
    } else if c == '+' {
        Ok((Token::Plus, start + 1))
    } else if c == '*' {
        Ok((Token::Star, start + 1))
    } else if c == '/' {
        Ok((Token::Slash, start + 1))
    } else if c == '(' {
        Ok((Token::LeftParen, start + 1))
    } else if c == ')' {
        Ok((Token::RightParen, start + 1))
    } else if c == '{' {
        Ok((Token::LeftBrace, start + 1))
    } else if c == '}' {
        Ok((Token::RightBrace, start + 1))
    } else if c == ':' {
        Ok((Token::Colon, start + 1))
    } else if c == ';' {
        Ok((Token::Semicolon, start + 1))
    } else if c == ',' {
        Ok((Token::Comma, start + 1))
    } else {
        Err(LexerError { kind: LexErrorKind::UnexpectedCharacter { character: c }, position: start })
    }
}

/// Splits a source text into its tokens.
///
/// The result is exactly [`lex_spec`] of the text: the tokens in order,
/// closed by one end-of-input token, or the first lexical error.
pub fn lex(input: &str) -> (result: Result<Vec<Token>, LexerError>)
    ensures
        lex_result_view(result) == lex_spec(input@),
        result matches Ok(tokens) ==> ends_with_single_eof(tokens_view(tokens@)),
{
    let chars: Vec<char> = chars_of(input);
    let mut tokens: Vec<Token> = Vec::new();
    let mut i: usize = 0;
    assert(tokens_view(tokens@) =~= Seq::<TokenView>::empty());
    while i < chars.len()
        invariant
            i <= chars.len(),
            chars@ == input@,
            tokens_then(tokens_view(tokens@), lex_from(chars@, i as int)) == lex_spec(chars@),
        decreases chars.len() - i,
    {
        if char_is_space(chars[i]) {
            i += 1;
        } else {
            match scan_token(&chars, i) {
                Ok((token, end)) => {
                    proof {
                        let before = tokens_view(tokens@);
                        let after = tokens_view(tokens@.push(token));
                        assert(after =~= before + seq![token@]);
                        if let Ok(rest) = lex_from(chars@, end as int) {
                            assert(before + (seq![token@] + rest) =~= after + rest);
                        }
                    }
                    tokens.push(token);
                    i = end;
                },
                Err(e) => {
                    return Err(e);
                },
            }
        }
    }
    proof {
        let before = tokens_view(tokens@);
        let after = tokens_view(tokens@.push(Token::Eof));
        assert(after =~= before + seq![TokenView::Eof]);
        lemma_lex_ends_with_single_eof(chars@, 0);
    }
    tokens.push(Token::Eof);
    Ok(tokens)
}

} // verus!
