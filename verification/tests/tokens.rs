use tapegen::tokenizer::{read_comment, read_identifier, read_number, read_string, tokenize, Token};

fn tokens_of(src: &str) -> Vec<Token> {
    tokenize(src).collect()
}

fn ident(name: &str) -> Token {
    Token::Identifier(name.to_string())
}

#[test]
fn empty_source_is_just_the_end() {
    assert_eq!(tokens_of(""), vec![Token::Eof]);
    assert_eq!(tokens_of(" \n\t\r "), vec![Token::Eof]);
}

#[test]
fn stream_ends_once() {
    let mut stream = tokenize("+");
    assert_eq!(stream.next(), Some(Token::Plus));
    assert_eq!(stream.next(), Some(Token::Eof));
    assert_eq!(stream.next(), None);
    assert_eq!(stream.next(), None);
}

#[test]
fn single_character_tokens() {
    assert_eq!(
        tokens_of("(){}[],.-+;*%/< > = ! & |"),
        vec![
            Token::LeftParen,
            Token::RightParen,
            Token::LeftBrace,
            Token::RightBrace,
            Token::LeftBracket,
            Token::RightBracket,
            Token::Comma,
            Token::Dot,
            Token::Minus,
            Token::Plus,
            Token::Semicolon,
            Token::Star,
            Token::Percent,
            Token::Slash,
            Token::Less,
            Token::Greater,
            Token::Equal,
            Token::Not,
            Token::And,
            Token::Or,
            Token::Eof,
        ]
    );
}

#[test]
fn two_character_tokens() {
    assert_eq!(
        tokens_of("== != <= >= && ||"),
        vec![
            Token::EqualEqual,
            Token::NotEqual,
            Token::LessEqual,
            Token::GreaterEqual,
            Token::AndAnd,
            Token::OrOr,
            Token::Eof,
        ]
    );
    assert_eq!(tokens_of("==="), vec![Token::EqualEqual, Token::Equal, Token::Eof]);
    assert_eq!(tokens_of("= ="), vec![Token::Equal, Token::Equal, Token::Eof]);
}

#[test]
fn keywords_and_identifiers() {
    assert_eq!(
        tokens_of("if else for while return fn let print true false iffy x1"),
        vec![
            Token::If,
            Token::Else,
            Token::For,
            Token::While,
            Token::Return,
            Token::Function,
            Token::Let,
            Token::Print,
            Token::Boolean(true),
            Token::Boolean(false),
            ident("iffy"),
            ident("x1"),
            Token::Eof,
        ]
    );
}

#[test]
fn words_stop_at_what_is_not_alphanumeric() {
    assert_eq!(tokens_of("ab1+"), vec![ident("ab1"), Token::Plus, Token::Eof]);
    assert_eq!(tokens_of("my_var"), vec![ident("my"), ident("_var"), Token::Eof]);
    assert_eq!(tokens_of("a\u{e9}b"), vec![ident("a\u{e9}b"), Token::Eof]);
    assert_eq!(tokens_of("#"), vec![ident("#"), Token::Eof]);
}

#[test]
fn numbers() {
    assert_eq!(tokens_of("0 7 007 255"), vec![
        Token::Number(0),
        Token::Number(7),
        Token::Number(7),
        Token::Number(255),
        Token::Eof,
    ]);
    assert_eq!(tokens_of("12ab"), vec![Token::Number(12), ident("ab"), Token::Eof]);
}

#[test]
fn number_above_255_is_an_error_token() {
    assert_eq!(tokens_of("256"), vec![
        Token::Error("Number literal out of range".to_string()),
        Token::Eof,
    ]);
    assert_eq!(tokens_of("99999999999999999999999999 1"), vec![
        Token::Error("Number literal out of range".to_string()),
        Token::Number(1),
        Token::Eof,
    ]);
}

#[test]
fn strings_resolve_escapes() {
    assert_eq!(tokens_of("\"a b\""), vec![Token::String("a b".to_string()), Token::Eof]);
    assert_eq!(
        tokens_of("\"\\n\\t\\r\\\\\\\"\\q\""),
        vec![Token::String("\n\t\r\\\"q".to_string()), Token::Eof]
    );
    assert_eq!(tokens_of("\"\""), vec![Token::String(String::new()), Token::Eof]);
}

#[test]
fn unclosed_string_runs_to_the_end() {
    assert_eq!(tokens_of("\"ab"), vec![Token::String("ab".to_string()), Token::Eof]);
    assert_eq!(tokens_of("\"ab\\"), vec![Token::String("ab".to_string()), Token::Eof]);
}

#[test]
fn comments_run_to_the_line_end() {
    assert_eq!(
        tokens_of("1 // one\n2"),
        vec![
            Token::Number(1),
            Token::Comment(" one".to_string()),
            Token::Number(2),
            Token::Eof,
        ]
    );
    assert_eq!(tokens_of("//"), vec![Token::Comment(String::new()), Token::Eof]);
    assert!(Token::Comment(String::new()).is_ignorable());
    assert!(!Token::Slash.is_ignorable());
}

#[test]
fn characters_outside_ascii_are_errors() {
    assert_eq!(
        tokens_of("\u{e9}"),
        vec![Token::Error("Unexpected character: \u{e9}".to_string()), Token::Eof]
    );
}

#[test]
fn binary_operator_tokens() {
    for t in [
        Token::Plus,
        Token::Minus,
        Token::Star,
        Token::Slash,
        Token::Percent,
        Token::EqualEqual,
        Token::NotEqual,
        Token::Less,
        Token::LessEqual,
        Token::Greater,
        Token::GreaterEqual,
        Token::And,
        Token::Or,
    ] {
        assert!(t.is_binary_op());
    }
    for t in [Token::AndAnd, Token::OrOr, Token::Not, Token::Equal, Token::Eof, Token::Number(1)] {
        assert!(!t.is_binary_op());
    }
}

#[test]
fn token_equality_looks_at_payloads() {
    assert_eq!(ident("a"), ident("a"));
    assert_ne!(ident("a"), ident("b"));
    assert_ne!(ident("a"), Token::String("a".to_string()));
    assert_ne!(Token::Number(1), Token::Number(2));
    assert_eq!(Token::Boolean(true), Token::Boolean(true));
    assert_eq!(ident("a").duplicate(), ident("a"));
}

#[test]
fn readers_report_where_they_stop() {
    let chars: Vec<char> = "x 123;\"a\\nb\" //c\nfoo9 ".chars().collect();
    assert_eq!(read_number(&chars, 2), (Some(123), 5));
    assert_eq!(read_string(&chars, 7), ("a\nb".to_string(), 12));
    assert_eq!(read_comment(&chars, 15), ("c".to_string(), 17));
    assert_eq!(read_identifier(&chars, 17), (ident("foo9"), 21));
    let big: Vec<char> = "300".chars().collect();
    assert_eq!(read_number(&big, 0), (None, 3));
}
