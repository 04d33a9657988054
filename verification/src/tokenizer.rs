//! Lexical analysis: from source text to tokens.

use vstd::prelude::*;
use vstd::string::*;
use crate::text::{chars_of, push_char};

verus! {

/// A token of the surface language.
#[derive(Debug, Clone)]
pub enum Token {
    // Single-character tokens.
    LeftParen,
    RightParen,
    LeftBrace,
    RightBrace,
    LeftBracket,
    RightBracket,
    Comma,
    Dot,
    Minus,
    Plus,
    Semicolon,
    Slash,
    Star,
    Less,
    Percent,
    Greater,
    Equal,
    Not,
    And,
    Or,
    // Two-character tokens.
    EqualEqual,
    LessEqual,
    GreaterEqual,
    NotEqual,
    AndAnd,
    OrOr,
    // Literals.
    Identifier(String),
    String(String),
    Number(u8),
    Boolean(bool),
    // Keywords.
    If,
    Else,
    For,
    While,
    Return,
    Function,
    Let,
    Print,
    // Misc
    Eof,
    Error(String),
    Comment(String),
}

/// A token as plain data.
pub enum SpecToken {
    // Single-character tokens.
    LeftParen,
    RightParen,
    LeftBrace,
    RightBrace,
    LeftBracket,
    RightBracket,
    Comma,
    Dot,
    Minus,
    Plus,
    Semicolon,
    Slash,
    Star,
    Less,
    Percent,
    Greater,
    Equal,
    Not,
    And,
    Or,
    // Two-character tokens.
    EqualEqual,
    LessEqual,
    GreaterEqual,
    NotEqual,
    AndAnd,
    OrOr,
    // Literals.
    Identifier(Seq<char>),
    String(Seq<char>),
    Number(u8),
    Boolean(bool),
    // Keywords.
    If,
    Else,
    For,
    While,
    Return,
    Function,
    Let,
    Print,
    // Misc
    Eof,
    Error(Seq<char>),
    Comment(Seq<char>),
}

impl View for Token {
    type V = SpecToken;

    open spec fn view(&self) -> SpecToken {
        match self {
            Token::LeftParen => SpecToken::LeftParen,
            Token::RightParen => SpecToken::RightParen,
            Token::LeftBrace => SpecToken::LeftBrace,
            Token::RightBrace => SpecToken::RightBrace,
            Token::LeftBracket => SpecToken::LeftBracket,
            Token::RightBracket => SpecToken::RightBracket,
            Token::Comma => SpecToken::Comma,
            Token::Dot => SpecToken::Dot,
            Token::Minus => SpecToken::Minus,
            Token::Plus => SpecToken::Plus,
            Token::Semicolon => SpecToken::Semicolon,
            Token::Slash => SpecToken::Slash,
            Token::Star => SpecToken::Star,
            Token::Less => SpecToken::Less,
            Token::Percent => SpecToken::Percent,
            Token::Greater => SpecToken::Greater,
            Token::Equal => SpecToken::Equal,
            Token::Not => SpecToken::Not,
            Token::And => SpecToken::And,
            Token::Or => SpecToken::Or,
            Token::EqualEqual => SpecToken::EqualEqual,
            Token::LessEqual => SpecToken::LessEqual,
            Token::GreaterEqual => SpecToken::GreaterEqual,
            Token::NotEqual => SpecToken::NotEqual,
            Token::AndAnd => SpecToken::AndAnd,
            Token::OrOr => SpecToken::OrOr,
            Token::If => SpecToken::If,
            Token::Else => SpecToken::Else,
            Token::For => SpecToken::For,
            Token::While => SpecToken::While,
            Token::Return => SpecToken::Return,
            Token::Function => SpecToken::Function,
            Token::Let => SpecToken::Let,
            Token::Print => SpecToken::Print,
            Token::Eof => SpecToken::Eof,
            Token::Identifier(s) => SpecToken::Identifier(s@),
            Token::String(s) => SpecToken::String(s@),
            Token::Number(n) => SpecToken::Number(*n),
            Token::Boolean(b) => SpecToken::Boolean(*b),
            Token::Error(s) => SpecToken::Error(s@),
            Token::Comment(s) => SpecToken::Comment(s@),
        }
    }
}

impl PartialEq for Token {
    fn eq(&self, other: &Token) -> (r: bool) {
        match (self, other) {
            (Token::LeftParen, Token::LeftParen) => true,
            (Token::RightParen, Token::RightParen) => true,
            (Token::LeftBrace, Token::LeftBrace) => true,
            (Token::RightBrace, Token::RightBrace) => true,
            (Token::LeftBracket, Token::LeftBracket) => true,
            (Token::RightBracket, Token::RightBracket) => true,
            (Token::Comma, Token::Comma) => true,
            (Token::Dot, Token::Dot) => true,
            (Token::Minus, Token::Minus) => true,
            (Token::Plus, Token::Plus) => true,
            (Token::Semicolon, Token::Semicolon) => true,
            (Token::Slash, Token::Slash) => true,
            (Token::Star, Token::Star) => true,
            (Token::Less, Token::Less) => true,
            (Token::Percent, Token::Percent) => true,
            (Token::Greater, Token::Greater) => true,
            (Token::Equal, Token::Equal) => true,
            (Token::Not, Token::Not) => true,
            (Token::And, Token::And) => true,
            (Token::Or, Token::Or) => true,
            (Token::EqualEqual, Token::EqualEqual) => true,
            (Token::LessEqual, Token::LessEqual) => true,
            (Token::GreaterEqual, Token::GreaterEqual) => true,
            (Token::NotEqual, Token::NotEqual) => true,
            (Token::AndAnd, Token::AndAnd) => true,
            (Token::OrOr, Token::OrOr) => true,
            (Token::If, Token::If) => true,
            (Token::Else, Token::Else) => true,
            (Token::For, Token::For) => true,
            (Token::While, Token::While) => true,
            (Token::Return, Token::Return) => true,
            (Token::Function, Token::Function) => true,
            (Token::Let, Token::Let) => true,
            (Token::Print, Token::Print) => true,
            (Token::Eof, Token::Eof) => true,
            (Token::Identifier(a), Token::Identifier(b)) => *a == *b,
            (Token::String(a), Token::String(b)) => *a == *b,
            (Token::Number(a), Token::Number(b)) => *a == *b,
            (Token::Boolean(a), Token::Boolean(b)) => *a == *b,
            (Token::Error(a), Token::Error(b)) => *a == *b,
            (Token::Comment(a), Token::Comment(b)) => *a == *b,
            _ => false,
        }
    }
}

impl vstd::std_specs::cmp::PartialEqSpecImpl for Token {
    open spec fn obeys_eq_spec() -> bool {
        true
    }

    open spec fn eq_spec(&self, other: &Token) -> bool {
        self@ == other@
    }
}

impl Token {
    /// A copy of the token.
    pub fn duplicate(&self) -> (t: Token)
        ensures
            t@ == self@,
    {
        match self {
            Token::LeftParen => Token::LeftParen,
            Token::RightParen => Token::RightParen,
            Token::LeftBrace => Token::LeftBrace,
            Token::RightBrace => Token::RightBrace,
            Token::LeftBracket => Token::LeftBracket,
            Token::RightBracket => Token::RightBracket,
            Token::Comma => Token::Comma,
            Token::Dot => Token::Dot,
            Token::Minus => Token::Minus,
            Token::Plus => Token::Plus,
            Token::Semicolon => Token::Semicolon,
            Token::Slash => Token::Slash,
            Token::Star => Token::Star,
            Token::Less => Token::Less,
            Token::Percent => Token::Percent,
            Token::Greater => Token::Greater,
            Token::Equal => Token::Equal,
            Token::Not => Token::Not,
            Token::And => Token::And,
            Token::Or => Token::Or,
            Token::EqualEqual => Token::EqualEqual,
            Token::LessEqual => Token::LessEqual,
            Token::GreaterEqual => Token::GreaterEqual,
            Token::NotEqual => Token::NotEqual,
            Token::AndAnd => Token::AndAnd,
            Token::OrOr => Token::OrOr,
            Token::If => Token::If,
            Token::Else => Token::Else,
            Token::For => Token::For,
            Token::While => Token::While,
            Token::Return => Token::Return,
            Token::Function => Token::Function,
            Token::Let => Token::Let,
            Token::Print => Token::Print,
            Token::Eof => Token::Eof,
            Token::Identifier(s) => Token::Identifier(s.clone()),
            Token::String(s) => Token::String(s.clone()),
            Token::Number(n) => Token::Number(*n),
            Token::Boolean(b) => Token::Boolean(*b),
            Token::Error(s) => Token::Error(s.clone()),
            Token::Comment(s) => Token::Comment(s.clone()),
        }
    }

    /// Whether the parser skips the token.
    pub fn is_ignorable(&self) -> (b: bool)
        ensures
            b == (self@ is Comment),
    {
        match self {
            Token::Comment(_) => true,
            _ => false,
        }
    }

    /// Whether the token is a binary operator.
    pub fn is_binary_op(&self) -> (b: bool)
        ensures
            b == is_binary_op(self@),
    {
        match self {
            Token::Plus
            | Token::Minus
            | Token::Star
            | Token::Slash
            | Token::Percent
            | Token::EqualEqual
            | Token::NotEqual
            | Token::Less
            | Token::LessEqual
            | Token::Greater
            | Token::GreaterEqual
            | Token::And
            | Token::Or => true,
            _ => false,
        }
    }
}

/// Whether a token is a binary operator.
pub open spec fn is_binary_op(t: SpecToken) -> bool {
    t is Plus || t is Minus || t is Star || t is Slash || t is Percent || t is EqualEqual || t
        is NotEqual || t is Less || t is LessEqual || t is Greater || t is GreaterEqual || t is And
        || t is Or
}

/// The text that debug formatting gives for a token.
pub uninterp spec fn token_debug(t: SpecToken) -> Seq<char>;

/// Debug formatting of a token through `format!`: the result is named, not
/// described.
#[verifier::external_body]
pub(crate) fn debug_text(t: &Token) -> (s: String)
    ensures
        s@ == token_debug(t@),
{
    format!("{:?}", t)
}

/// Whether `c` is alphanumeric in the sense of Unicode, as the standard
/// library tells it.
pub uninterp spec fn is_alphanumeric(c: char) -> bool;

/// The letters and digits below 128.
pub open spec fn is_ascii_alphanumeric(c: char) -> bool {
    ('a' <= c && c <= 'z') || ('A' <= c && c <= 'Z') || ('0' <= c && c <= '9')
}

/// `char::is_alphanumeric`: the result is named. Of the characters below
/// 128 it holds of the letters and the digits, and of no other.
#[verifier::external_body]
fn char_is_alphanumeric(c: char) -> (b: bool)
    ensures
        b == is_alphanumeric(c),
        (c as u32) < 128 ==> b == is_ascii_alphanumeric(c),
{
    c.is_alphanumeric()
}

/// Whether a character continues a word: below 128 the letters and digits,
/// from 128 on whatever is alphanumeric in the sense of Unicode.
pub open spec fn is_word_char(c: char) -> bool {
    if (c as u32) < 128 {
        is_ascii_alphanumeric(c)
    } else {
        is_alphanumeric(c)
    }
}

/// Blank characters between tokens.
pub open spec fn is_space(c: char) -> bool {
    c == ' ' || c == '\n' || c == '\t' || c == '\r'
}

/// The ten decimal digits.
pub open spec fn is_digit(c: char) -> bool {
    '0' <= c && c <= '9'
}

/// The value of a digit.
pub open spec fn digit_value(c: char) -> int {
    c as int - '0' as int
}

/// Characters below 128.
pub open spec fn is_ascii_char(c: char) -> bool {
    (c as u32) < 128
}

/// First index at or after `i` that holds no blank.
pub open spec fn skip_space(s: Seq<char>, i: int) -> int
    decreases s.len() - i,
{
    if 0 <= i < s.len() && is_space(s[i]) {
        skip_space(s, i + 1)
    } else {
        i
    }
}

/// First index at or after `i` that holds no digit.
pub open spec fn digits_end(s: Seq<char>, i: int) -> int
    decreases s.len() - i,
{
    if 0 <= i < s.len() && is_digit(s[i]) {
        digits_end(s, i + 1)
    } else {
        i
    }
}

/// The number that a string of digits denotes.
pub open spec fn decimal(digits: Seq<char>) -> int
    decreases digits.len(),
{
    if digits.len() == 0 {
        0
    } else {
        decimal(digits.drop_last()) * 10 + digit_value(digits.last())
    }
}

/// First index at or after `i` that holds no character of a word.
pub open spec fn word_end(s: Seq<char>, i: int) -> int
    decreases s.len() - i,
{
    if 0 <= i < s.len() && is_word_char(s[i]) {
        word_end(s, i + 1)
    } else {
        i
    }
}

/// Index of the first line feed at or after `i`, or the length of `s`.
pub open spec fn line_end(s: Seq<char>, i: int) -> int
    decreases s.len() - i,
{
    if 0 <= i < s.len() && s[i] != '\n' {
        line_end(s, i + 1)
    } else {
        i
    }
}

/// The character that a backslash followed by `c` stands for.
pub open spec fn unescape(c: char) -> char {
    if c == 'n' {
        '\n'
    } else if c == 't' {
        '\t'
    } else if c == 'r' {
        '\r'
    } else {
        c
    }
}

/// The text of a string literal whose body starts at `i`, with escapes
/// resolved.
pub open spec fn string_text(s: Seq<char>, i: int) -> Seq<char>
    decreases s.len() - i,
{
    if i < 0 || i >= s.len() || s[i] == '"' {
        Seq::empty()
    } else if s[i] == '\\' {
        if i + 1 < s.len() {
            seq![unescape(s[i + 1])] + string_text(s, i + 2)
        } else {
            Seq::empty()
        }
    } else {
        seq![s[i]] + string_text(s, i + 1)
    }
}

/// Index behind the closing quote of a string literal whose body starts at
/// `i`, or the length of `s` when the literal is not closed.
pub open spec fn string_end(s: Seq<char>, i: int) -> int
    decreases s.len() - i,
{
    if i < 0 || i >= s.len() {
        s.len() as int
    } else if s[i] == '"' {
        i + 1
    } else if s[i] == '\\' {
        if i + 1 < s.len() {
            string_end(s, i + 2)
        } else {
            s.len() as int
        }
    } else {
        string_end(s, i + 1)
    }
}

/// The keyword or identifier that a word is.
pub open spec fn word_token(word: Seq<char>) -> SpecToken {
    if word == "if"@ {
        SpecToken::If
    } else if word == "else"@ {
        SpecToken::Else
    } else if word == "for"@ {
        SpecToken::For
    } else if word == "while"@ {
        SpecToken::While
    } else if word == "return"@ {
        SpecToken::Return
    } else if word == "fn"@ {
        SpecToken::Function
    } else if word == "let"@ {
        SpecToken::Let
    } else if word == "print"@ {
        SpecToken::Print
    } else if word == "true"@ {
        SpecToken::Boolean(true)
    } else if word == "false"@ {
        SpecToken::Boolean(false)
    } else {
        SpecToken::Identifier(word)
    }
}

/// The token for a number literal with the given digits.
pub open spec fn number_token(digits: Seq<char>) -> SpecToken {
    if decimal(digits) <= 255 {
        SpecToken::Number(decimal(digits) as u8)
    } else {
        SpecToken::Error("Number literal out of range"@)
    }
}

/// A token and the index behind it.
pub struct Lexed {
    pub token: SpecToken,
    pub next: int,
}

/// `first` when the character at `i + 1` is `second`, else `alone`.
pub open spec fn pair_or(
    s: Seq<char>,
    i: int,
    second: char,
    both: SpecToken,
    alone: SpecToken,
) -> Lexed {
    if i + 1 < s.len() && s[i + 1] == second {
        Lexed { token: both, next: i + 2 }
    } else {
        Lexed { token: alone, next: i + 1 }
    }
}

/// The token that starts at index `i`, which holds no blank.
pub open spec fn lex_at(s: Seq<char>, i: int) -> Lexed {
    let c = s[i];
    let one = i + 1;
    if c == '(' {
        Lexed { token: SpecToken::LeftParen, next: one }
    } else if c == ')' {
        Lexed { token: SpecToken::RightParen, next: one }
    } else if c == '{' {
        Lexed { token: SpecToken::LeftBrace, next: one }
    } else if c == '}' {
        Lexed { token: SpecToken::RightBrace, next: one }
    } else if c == '[' {
        Lexed { token: SpecToken::LeftBracket, next: one }
    } else if c == ']' {
        Lexed { token: SpecToken::RightBracket, next: one }
    } else if c == ',' {
        Lexed { token: SpecToken::Comma, next: one }
    } else if c == '.' {
        Lexed { token: SpecToken::Dot, next: one }
    } else if c == '-' {
        Lexed { token: SpecToken::Minus, next: one }
    } else if c == '+' {
        Lexed { token: SpecToken::Plus, next: one }
    } else if c == ';' {
        Lexed { token: SpecToken::Semicolon, next: one }
    } else if c == '*' {
        Lexed { token: SpecToken::Star, next: one }
    } else if c == '%' {
        Lexed { token: SpecToken::Percent, next: one }
    } else if c == '!' {
        pair_or(s, i, '=', SpecToken::NotEqual, SpecToken::Not)
    } else if c == '=' {
        pair_or(s, i, '=', SpecToken::EqualEqual, SpecToken::Equal)
    } else if c == '<' {
        pair_or(s, i, '=', SpecToken::LessEqual, SpecToken::Less)
    } else if c == '>' {
        pair_or(s, i, '=', SpecToken::GreaterEqual, SpecToken::Greater)
    } else if c == '/' {
        if i + 1 < s.len() && s[i + 1] == '/' {
            let end = line_end(s, i + 2);
            Lexed {
                token: SpecToken::Comment(s.subrange(i + 2, end)),
                next: if end < s.len() {
                    end + 1
                } else {
                    end
                },
            }
        } else {
            Lexed { token: SpecToken::Slash, next: one }
        }
    } else if c == '&' {
        pair_or(s, i, '&', SpecToken::AndAnd, SpecToken::And)
    } else if c == '|' {
        pair_or(s, i, '|', SpecToken::OrOr, SpecToken::Or)
    } else if c == '"' {
        Lexed { token: SpecToken::String(string_text(s, one)), next: string_end(s, one) }
    } else if is_digit(c) {
        let end = digits_end(s, one);
        Lexed { token: number_token(s.subrange(i, end)), next: end }
    } else if is_ascii_char(c) {
        let end = word_end(s, one);
        Lexed { token: word_token(s.subrange(i, end)), next: end }
    } else {
        Lexed { token: SpecToken::Error("Unexpected character: "@.push(c)), next: one }
    }
}

/// The runs of digits, words, lines and strings end at or behind their
/// start and inside the text.
pub proof fn lemma_scan_bounds(s: Seq<char>, i: int)
    requires
        0 <= i <= s.len(),
    ensures
        i <= skip_space(s, i) <= s.len(),
        i <= digits_end(s, i) <= s.len(),
        i <= word_end(s, i) <= s.len(),
        i <= line_end(s, i) <= s.len(),
        i <= string_end(s, i) <= s.len(),
    decreases s.len() - i,
{
    if i < s.len() {
        lemma_scan_bounds(s, i + 1);
        if i + 1 < s.len() {
            lemma_scan_bounds(s, i + 2);
        }
    }
}

/// Every token takes at least one character and ends inside the text.
pub proof fn lemma_lex_advances(s: Seq<char>, i: int)
    requires
        0 <= i < s.len(),
    ensures
        i < lex_at(s, i).next <= s.len(),
{
    lemma_scan_bounds(s, i + 1);
    if i + 2 <= s.len() {
        lemma_scan_bounds(s, i + 2);
    }
}

/// The tokens of the text from index `i` on, closed by the end-of-input
/// token.
pub open spec fn tokens_from(s: Seq<char>, i: int) -> Seq<SpecToken>
    decreases s.len() - i,
{
    let j = skip_space(s, i);
    if i < 0 || j >= s.len() {
        seq![SpecToken::Eof]
    } else {
        proof {
            lemma_scan_bounds(s, i);
            lemma_lex_advances(s, j);
        }
        seq![lex_at(s, j).token] + tokens_from(s, lex_at(s, j).next)
    }
}

/// The tokens of a source text.
pub open spec fn spec_tokenize(src: Seq<char>) -> Seq<SpecToken> {
    tokens_from(src, 0)
}

/// The models of a list of tokens.
pub open spec fn tokens_view(tokens: Seq<Token>) -> Seq<SpecToken> {
    Seq::new(tokens.len(), |i: int| tokens[i]@)
}

/// Appending a digit to a string of digits can only make its number larger.
proof fn lemma_decimal_grows(digits: Seq<char>)
    requires
        forall|k: int| 0 <= k < digits.len() ==> is_digit(#[trigger] digits[k]),
    ensures
        decimal(digits) >= 0,
        digits.len() > 0 ==> decimal(digits) >= decimal(digits.drop_last()),
    decreases digits.len(),
{
    if digits.len() > 0 {
        lemma_decimal_grows(digits.drop_last());
    }
}

/// Reads the number literal whose first digit is at `start`. Returns its
/// value, or `None` when that is above 255, and the index behind the
/// literal.
#[verifier::rlimit(30)]
pub fn read_number(chars: &Vec<char>, start: usize) -> (r: (Option<u8>, usize))
    requires
        start < chars@.len(),
        is_digit(chars@[start as int]),
    ensures
        r.1 == digits_end(chars@, start + 1),
        start < r.1 <= chars@.len(),
        match r.0 {
            Some(v) => decimal(chars@.subrange(start as int, r.1 as int)) == v,
            None => decimal(chars@.subrange(start as int, r.1 as int)) > 255,
        },
{
    let ghost s = chars@;
    let mut value: u32 = 0;
    let mut big = false;
    let mut i: usize = start;
    proof {
        assert(s.subrange(start as int, start as int).len() == 0);
    }
    loop
        invariant_except_break
            start <= i <= chars.len(),
            i == start || digits_end(s, start + 1) == digits_end(s, i as int),
            i < chars.len() ==> i == start || digits_end(s, i as int) == i || is_digit(s[i as int]),
        invariant
            s == chars@,
            start < chars.len(),
            is_digit(s[start as int]),
            start <= i <= chars.len(),
            forall|k: int| start <= k < i ==> is_digit(#[trigger] s[k]),
            value <= 255,
            big == (decimal(s.subrange(start as int, i as int)) > 255),
            !big ==> value == decimal(s.subrange(start as int, i as int)),
        ensures
            start < i,
            i == digits_end(s, start + 1),
        decreases chars.len() - i,
    {
        if i >= chars.len() {
            break ;
        }
        let c = chars[i];
        if !(c >= '0' && c <= '9') {
            break ;
        }
        let d: u32 = c as u32 - '0' as u32;
        proof {
            let longer = s.subrange(start as int, i as int + 1);
            assert(longer.drop_last() =~= s.subrange(start as int, i as int));
            assert(longer.last() == c);
            assert forall|k: int| 0 <= k < longer.len() implies is_digit(#[trigger] longer[k]) by {
                assert(longer[k] == s[start + k]);
            }
            lemma_decimal_grows(longer);
        }
        if !big {
            value = value * 10 + d;
            if value > 255 {
                big = true;
                value = 0;
            }
        }
        i += 1;
    }
    if big {
        (None, i)
    } else {
        (Some(value as u8), i)
    }
}

/// Reads the body of a string literal from `start`, the index behind the
/// opening quote. Returns the text with escapes resolved and the index
/// behind the closing quote.
#[verifier::rlimit(30)]
pub fn read_string(chars: &Vec<char>, start: usize) -> (r: (String, usize))
    requires
        start <= chars@.len(),
    ensures
        r.0@ == string_text(chars@, start as int),
        r.1 == string_end(chars@, start as int),
        start <= r.1 <= chars@.len(),
{
    let ghost s = chars@;
    let mut string = String::new();
    let mut i: usize = start;
    proof {
        lemma_scan_bounds(s, start as int);
        assert(string@ + string_text(s, i as int) =~= string_text(s, start as int));
    }
    while i < chars.len()
        invariant_except_break
            string_text(s, start as int) == string@ + string_text(s, i as int),
            string_end(s, start as int) == string_end(s, i as int),
        invariant
            s == chars@,
            start <= i <= chars.len(),
            start <= string_end(s, start as int) <= s.len(),
        ensures
            string_text(s, start as int) == string@,
            string_end(s, start as int) == i,
        decreases chars.len() - i,
    {
        let c = chars[i];
        let ghost before = string@;
        if c == '"' {
            i += 1;
            proof {
                assert(before + Seq::<char>::empty() =~= before);
            }
            break ;
        } else if c == '\\' {
            if i + 1 < chars.len() {
                let e = chars[i + 1];
                if e == 'n' {
                    push_char(&mut string, '\n');
                } else if e == 't' {
                    push_char(&mut string, '\t');
                } else if e == 'r' {
                    push_char(&mut string, '\r');
                } else {
                    push_char(&mut string, e);
                }
                proof {
                    assert(before + (seq![unescape(e)] + string_text(s, i + 2)) =~= before.push(
                        unescape(e),
                    ) + string_text(s, i + 2));
                }
                i += 2;
            } else {
                i += 1;
                proof {
                    assert(before + Seq::<char>::empty() =~= before);
                }
                break ;
            }
        } else {
            push_char(&mut string, c);
            proof {
                assert(before + (seq![c] + string_text(s, i + 1)) =~= before.push(c) + string_text(
                    s,
                    i + 1,
                ));
            }
            i += 1;
        }
    }
    proof {
        assert(string@ + Seq::<char>::empty() =~= string@);
    }
    (string, i)
}

/// Reads a comment from `start`, the index behind the two slashes. Returns
/// its text, which ends before the line feed, and the index behind the line
/// feed.
pub fn read_comment(chars: &Vec<char>, start: usize) -> (r: (String, usize))
    requires
        start <= chars@.len(),
    ensures
        r.0@ == chars@.subrange(start as int, line_end(chars@, start as int)),
        r.1 == if line_end(chars@, start as int) < chars@.len() {
            line_end(chars@, start as int) + 1
        } else {
            line_end(chars@, start as int)
        },
        start <= r.1 <= chars@.len(),
{
    let ghost s = chars@;
    let mut comment = String::new();
    let mut i: usize = start;
    proof {
        lemma_scan_bounds(s, start as int);
        assert(s.subrange(start as int, start as int) =~= Seq::<char>::empty());
    }
    while i < chars.len() && chars[i] != '\n'
        invariant
            s == chars@,
            start <= i <= chars.len(),
            line_end(s, start as int) == line_end(s, i as int),
            comment@ == s.subrange(start as int, i as int),
        decreases chars.len() - i,
    {
        push_char(&mut comment, chars[i]);
        i += 1;
        proof {
            assert(s.subrange(start as int, i as int) =~= s.subrange(start as int, i as int - 1).push(
                s[i as int - 1],
            ));
        }
    }
    if i < chars.len() {
        (comment, i + 1)
    } else {
        (comment, i)
    }
}

/// Reads the word whose first character is at `start`: that character and
/// the alphanumeric characters behind it. Returns the keyword or identifier
/// that the word is and the index behind it.
pub fn read_identifier(chars: &Vec<char>, start: usize) -> (r: (Token, usize))
    requires
        start < chars@.len(),
    ensures
        r.1 == word_end(chars@, start + 1),
        start < r.1 <= chars@.len(),
        r.0@ == word_token(chars@.subrange(start as int, r.1 as int)),
{
    let ghost s = chars@;
    let len = chars.len();
    let mut identifier = String::new();
    push_char(&mut identifier, chars[start]);
    let mut i: usize = start + 1;
    proof {
        lemma_scan_bounds(s, start + 1);
        assert(identifier@ =~= s.subrange(start as int, start + 1));
    }
    while i < chars.len() && char_is_alphanumeric(chars[i])
        invariant
            s == chars@,
            start < i <= chars.len(),
            word_end(s, start + 1) == word_end(s, i as int),
            identifier@ == s.subrange(start as int, i as int),
        decreases chars.len() - i,
    {
        push_char(&mut identifier, chars[i]);
        i += 1;
        proof {
            assert(s.subrange(start as int, i as int) =~= s.subrange(start as int, i as int - 1).push(
                s[i as int - 1],
            ));
        }
    }
    let token = if identifier == "if".to_owned() {
        Token::If
    } else if identifier == "else".to_owned() {
        Token::Else
    } else if identifier == "for".to_owned() {
        Token::For
    } else if identifier == "while".to_owned() {
        Token::While
    } else if identifier == "return".to_owned() {
        Token::Return
    } else if identifier == "fn".to_owned() {
        Token::Function
    } else if identifier == "let".to_owned() {
        Token::Let
    } else if identifier == "print".to_owned() {
        Token::Print
    } else if identifier == "true".to_owned() {
        Token::Boolean(true)
    } else if identifier == "false".to_owned() {
        Token::Boolean(false)
    } else {
        Token::Identifier(identifier)
    };
    (token, i)
}

/// The tokens of a source text, handed out one at a time.
pub struct TokenStream {
    chars: Vec<char>,
    pos: usize,
    done: bool,
}

impl TokenStream {
    /// The position is inside the text or at its end.
    pub closed spec fn wf(&self) -> bool {
        self.pos <= self.chars@.len()
    }

    /// The tokens that are still to come, the end-of-input token last.
    pub closed spec fn remaining(&self) -> Seq<SpecToken> {
        if self.done {
            Seq::empty()
        } else {
            tokens_from(self.chars@, self.pos as int)
        }
    }

    /// `both` when the character behind position `i` is `second`, else
    /// `alone`, with the index behind the token.
    fn pair(&self, i: usize, second: char, both: Token, alone: Token) -> (r: (Token, usize))
        requires
            i < self.chars@.len(),
        ensures
            r.0@ == pair_or(self.chars@, i as int, second, both@, alone@).token,
            r.1 == pair_or(self.chars@, i as int, second, both@, alone@).next,
    {
        let len = self.chars.len();
        if i + 1 < len && self.chars[i + 1] == second {
            (both, i + 2)
        } else {
            (alone, i + 1)
        }
    }

    /// The next token, the end-of-input token after the last one of the
    /// text, and `None` from then on.
    #[verifier::rlimit(30)]
    pub fn next(&mut self) -> (r: Option<Token>)
        requires
            old(self).wf(),
        ensures
            final(self).wf(),
            match r {
                Some(t) => old(self).remaining().len() > 0 && t@ == old(self).remaining()[0]
                    && final(self).remaining() == old(self).remaining().skip(1),
                None => old(self).remaining().len() == 0 && final(self).remaining().len() == 0,
            },
    {
        if self.done {
            return None;
        }
        let ghost s = self.chars@;
        let ghost from = self.pos as int;
        let mut i: usize = self.pos;
        while i < self.chars.len() && (self.chars[i] == ' ' || self.chars[i] == '\n'
            || self.chars[i] == '\t' || self.chars[i] == '\r')
            invariant
                s == self.chars@,
                from <= i <= self.chars.len(),
                skip_space(s, from) == skip_space(s, i as int),
            decreases self.chars.len() - i,
        {
            i += 1;
        }
        if i >= self.chars.len() {
            self.done = true;
            self.pos = i;
            proof {
                assert(seq![SpecToken::Eof].skip(1) =~= Seq::<SpecToken>::empty());
            }
            return Some(Token::Eof);
        }
        let c = self.chars[i];
        let (token, next) = if c == '(' {
            (Token::LeftParen, i + 1)
        } else if c == ')' {
            (Token::RightParen, i + 1)
        } else if c == '{' {
            (Token::LeftBrace, i + 1)
        } else if c == '}' {
            (Token::RightBrace, i + 1)
        } else if c == '[' {
            (Token::LeftBracket, i + 1)
        } else if c == ']' {
            (Token::RightBracket, i + 1)
        } else if c == ',' {
            (Token::Comma, i + 1)
        } else if c == '.' {
            (Token::Dot, i + 1)
        } else if c == '-' {
            (Token::Minus, i + 1)
        } else if c == '+' {
            (Token::Plus, i + 1)
        } else if c == ';' {
            (Token::Semicolon, i + 1)
        } else if c == '*' {
            (Token::Star, i + 1)
        } else if c == '%' {
            (Token::Percent, i + 1)
        } else if c == '!' {
            self.pair(i, '=', Token::NotEqual, Token::Not)
        } else if c == '=' {
            self.pair(i, '=', Token::EqualEqual, Token::Equal)
        } else if c == '<' {
            self.pair(i, '=', Token::LessEqual, Token::Less)
        } else if c == '>' {
            self.pair(i, '=', Token::GreaterEqual, Token::Greater)
        } else if c == '/' {
            if i + 1 < self.chars.len() && self.chars[i + 1] == '/' {
                let (comment, next) = read_comment(&self.chars, i + 2);
                (Token::Comment(comment), next)
            } else {
                (Token::Slash, i + 1)
            }
        } else if c == '&' {
            self.pair(i, '&', Token::AndAnd, Token::And)
        } else if c == '|' {
            self.pair(i, '|', Token::OrOr, Token::Or)
        } else if c == '"' {
            let (string, next) = read_string(&self.chars, i + 1);
            (Token::String(string), next)
        } else if c >= '0' && c <= '9' {
            let (value, next) = read_number(&self.chars, i);
            match value {
                Some(n) => (Token::Number(n), next),
                None => (Token::Error("Number literal out of range".to_owned()), next),
            }
        } else if (c as u32) < 128 {
            read_identifier(&self.chars, i)
        } else {
            let mut message = "Unexpected character: ".to_owned();
            push_char(&mut message, c);
            (Token::Error(message), i + 1)
        };
        proof {
            lemma_lex_advances(s, i as int);
            assert(token@ == lex_at(s, i as int).token);
            assert(next == lex_at(s, i as int).next);
            assert((seq![lex_at(s, i as int).token] + tokens_from(s, next as int)).skip(1)
                =~= tokens_from(s, next as int));
        }
        self.pos = next;
        Some(token)
    }

    /// All the tokens that are still to come.
    pub fn collect(self) -> (tokens: Vec<Token>)
        requires
            self.wf(),
        ensures
            tokens_view(tokens@) == self.remaining(),
    {
        let mut stream = self;
        let mut tokens: Vec<Token> = Vec::new();
        proof {
            assert(tokens_view(tokens@) + stream.remaining() =~= self.remaining());
        }
        loop
            invariant_except_break
                stream.wf(),
                tokens_view(tokens@) + stream.remaining() == self.remaining(),
            ensures
                tokens_view(tokens@) == self.remaining(),
            decreases stream.remaining().len(),
        {
            let ghost before = tokens@;
            let ghost rest = stream.remaining();
            match stream.next() {
                Some(token) => {
                    tokens.push(token);
                    proof {
                        assert(tokens_view(tokens@) =~= tokens_view(before).push(rest[0]));
                        assert(tokens_view(before).push(rest[0]) + rest.skip(1) =~= tokens_view(
                            before,
                        ) + rest);
                    }
                },
                None => {
                    proof {
                        assert(tokens_view(tokens@) + rest =~= tokens_view(tokens@));
                    }
                    break ;
                },
            }
        }
        tokens
    }
}

/// The token stream of a source text.
pub fn tokenize(src: &str) -> (stream: TokenStream)
    ensures
        stream.wf(),
        stream.remaining() == spec_tokenize(src@),
{
    TokenStream { chars: chars_of(src), pos: 0, done: false }
}

} // verus!
