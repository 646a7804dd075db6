use liakos::lexer::Lexer;
use liakos::token::{lookup_ident, Token, TokenType};

#[test]
fn eof_repeats_at_end() {
    let mut lexer = Lexer::new("x");
    let t = lexer.next_token();
    assert_eq!(t.ttype, TokenType::Ident);
    for _ in 0..3 {
        let t = lexer.next_token();
        assert_eq!(t.ttype, TokenType::Eof);
        assert_eq!(t.literal, "");
    }
}

#[test]
fn illegal_bytes_become_illegal_tokens() {
    let mut lexer = Lexer::new("@ 1");
    let t = lexer.next_token();
    assert_eq!(t.ttype, TokenType::Illegal);
    assert_eq!(t.literal, "@");
    assert_eq!(lexer.next_token().ttype, TokenType::Int);
}

#[test]
fn strings_keep_unicode_and_may_be_unterminated() {
    let mut lexer = Lexer::new("\"héllo\" \"abc");
    let t = lexer.next_token();
    assert_eq!(t.ttype, TokenType::String);
    assert_eq!(t.literal, "héllo");
    let t = lexer.next_token();
    assert_eq!(t.ttype, TokenType::String);
    assert_eq!(t.literal, "abc");
    assert_eq!(lexer.next_token().ttype, TokenType::Eof);
}

#[test]
fn identifiers_may_hold_underscores() {
    let mut lexer = Lexer::new("foo_bar _x1");
    let t = lexer.next_token();
    assert_eq!((t.ttype, t.literal.as_str()), (TokenType::Ident, "foo_bar"));
    let t = lexer.next_token();
    assert_eq!((t.ttype, t.literal.as_str()), (TokenType::Ident, "_x"));
    let t = lexer.next_token();
    assert_eq!((t.ttype, t.literal.as_str()), (TokenType::Int, "1"));
}

#[test]
fn keywords_are_looked_up() {
    assert_eq!(lookup_ident("fn"), TokenType::Function);
    assert_eq!(lookup_ident("let"), TokenType::Let);
    assert_eq!(lookup_ident("true"), TokenType::True);
    assert_eq!(lookup_ident("false"), TokenType::False);
    assert_eq!(lookup_ident("if"), TokenType::If);
    assert_eq!(lookup_ident("else"), TokenType::Else);
    assert_eq!(lookup_ident("return"), TokenType::Return);
    assert_eq!(lookup_ident("lets"), TokenType::Ident);
}

#[test]
fn token_names() {
    assert_eq!(TokenType::Ident.name(), "IDENT");
    assert_eq!(TokenType::Eof.name(), "EOF");
    assert_eq!(TokenType::NotEq.name(), "!=");
    assert_eq!(TokenType::Function.name(), "FUNCTION");
    let t = Token::new(TokenType::Plus, "+".to_string());
    assert_eq!(t.ttype, TokenType::Plus);
    assert_eq!(t.literal, "+");
}
