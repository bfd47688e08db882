use std::collections::HashMap;
use std::iter::FromIterator;

use rbuild::lexer::Lexer;
use rbuild::token::Token;

fn make_lexer(inp: &str) -> Lexer {
    Lexer::new(inp)
}

#[test]
fn test_can_parse_single_keywords() {
    let keywords: HashMap<&str, Token> = HashMap::from_iter(vec![
        ("path", Token::Path),
        ("deps", Token::Deps),
        ("run", Token::Run),
    ]);
    for (raw, token) in keywords {
        let mut lexer = Lexer::new(&raw);
        assert_eq!(lexer.next(), Some(token));
    }
}

#[test]
fn test_can_escape_spaces() {
    let mut lexer = make_lexer("my\\ string\\ with\\ spaces");
    assert_eq!(lexer.next(), Some(Token::Ident("my\\ string\\ with\\ spaces".to_string())));
}

#[test]
fn test_single_quoted_string_is_single_token() {
    let mut lexer = make_lexer("'my quoted string with whitespaces'");
    assert_eq!(lexer.next(), Some(Token::Ident("my quoted string with whitespaces".to_string())));
    assert_eq!(lexer.next(), None);
}

#[test]
fn test_double_quoted_string_is_single_token() {
    let mut lexer = make_lexer("\"my quoted string with whitespaces\"");
    assert_eq!(lexer.next(), Some(Token::Ident("my quoted string with whitespaces".to_string())));
    assert_eq!(lexer.next(), None);
}

#[test]
fn test_quoted_keyword_is_ident() {
    let mut lexer = make_lexer("'path'");
    assert_eq!(lexer.next(), Some(Token::Ident("path".to_string())));
}

#[test]
fn test_will_skip_comments() {
    let mut lexer = make_lexer("#0569");
    assert_eq!(lexer.next(), None);
}

#[test]
fn test_can_read_path_tag() {
    let mut lexer = make_lexer("path /my/test/path #0");
    assert_eq!(lexer.next(), Some(Token::Path));
    assert_eq!(lexer.next(), Some(Token::Ident("/my/test/path".to_string())));
    assert_eq!(lexer.next(), None);
}

#[test]
fn test_can_read_deps() {
    let mut lexer = make_lexer("deps 0 1 2");
    assert_eq!(lexer.next(), Some(Token::Deps));
    assert_eq!(lexer.next(), Some(Token::Num(0)));
    assert_eq!(lexer.next(), Some(Token::Num(1)));
    assert_eq!(lexer.next(), Some(Token::Num(2)));
}

#[test]
fn test_can_read_run() {
    let mut lexer = make_lexer("run g++ '/my/path.cpp' '-omy output/path.o'");
    assert_eq!(lexer.next(), Some(Token::Run));
    assert_eq!(lexer.next(), Some(Token::Ident("g++".to_string())));
    assert_eq!(lexer.next(), Some(Token::Ident("/my/path.cpp".to_string())));
    assert_eq!(lexer.next(), Some(Token::Ident("-omy output/path.o".to_string())));
}

#[test]
fn unterminated_quote_is_reported() {
    let mut lexer = make_lexer("'never closed");
    assert_eq!(lexer.next(), Some(Token::Unterminated("never closed".to_string())));
    assert_eq!(lexer.next(), None);
}

#[test]
fn lookup_reads_numbers_like_std() {
    assert_eq!(Token::lookup("+7"), Token::Num(7));
    assert_eq!(Token::lookup("18446744073709551615"), Token::Num(usize::MAX));
    assert_eq!(
        Token::lookup("18446744073709551616"),
        Token::Ident("18446744073709551616".to_string())
    );
    assert_eq!(Token::lookup("-1"), Token::Ident("-1".to_string()));
    assert_eq!(Token::lookup("+"), Token::Ident("+".to_string()));
    assert_eq!(Token::lookup("always"), Token::Always);
}

#[test]
fn escaped_quote_does_not_close() {
    let mut lexer = make_lexer("'a\\'b' c");
    assert_eq!(lexer.next(), Some(Token::Ident("a\\'b".to_string())));
    assert_eq!(lexer.next(), Some(Token::Ident("c".to_string())));
}

#[test]
fn unicode_whitespace_separates() {
    let mut lexer = make_lexer("a\u{3000}b\u{a0}c");
    assert_eq!(lexer.next(), Some(Token::Ident("a".to_string())));
    assert_eq!(lexer.next(), Some(Token::Ident("b".to_string())));
    assert_eq!(lexer.next(), Some(Token::Ident("c".to_string())));
    assert_eq!(lexer.next(), None);
}
