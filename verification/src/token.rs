//! Token kinds and keyword lookup.
use vstd::prelude::*;

verus! {

/// The kind of a lexical token.
#[derive(Debug, Clone, Copy, PartialEq, Eq, Structural)]
pub enum TokenType {
    Illegal,
    Eof,
    Ident,
    Int,
    String,
    Assign,
    Plus,
    Minus,
    Bang,
    Asterisk,
    Slash,
    Lt,
    Gt,
    Eq,
    NotEq,
    Comma,
    Semicolon,
    Colon,
    LParen,
    RParen,
    LBrace,
    RBrace,
    LBracket,
    RBracket,
    Function,
    Let,
    True,
    False,
    If,
    Else,
    Return,
}

/// A token: its kind and the source text it stands for.
pub struct Token {
    pub ttype: TokenType,
    pub literal: String,
}

/// Keyword table: the kind that an identifier-shaped word lexes to.
pub open spec fn spec_lookup_ident(s: Seq<char>) -> TokenType {
    if s == "fn"@ {
        TokenType::Function
    } else if s == "let"@ {
        TokenType::Let
    } else if s == "true"@ {
        TokenType::True
    } else if s == "false"@ {
        TokenType::False
    } else if s == "if"@ {
        TokenType::If
    } else if s == "else"@ {
        TokenType::Else
    } else if s == "return"@ {
        TokenType::Return
    } else {
        TokenType::Ident
    }
}

/// The seven keywords and their kinds; every other word is an identifier,
/// upper case making a different word (`Let` is an identifier).
pub proof fn lemma_keywords(w: Seq<char>)
    ensures
        spec_lookup_ident(seq!['f', 'n']) == TokenType::Function,
        spec_lookup_ident(seq!['l', 'e', 't']) == TokenType::Let,
        spec_lookup_ident(seq!['t', 'r', 'u', 'e']) == TokenType::True,
        spec_lookup_ident(seq!['f', 'a', 'l', 's', 'e']) == TokenType::False,
        spec_lookup_ident(seq!['i', 'f']) == TokenType::If,
        spec_lookup_ident(seq!['e', 'l', 's', 'e']) == TokenType::Else,
        spec_lookup_ident(seq!['r', 'e', 't', 'u', 'r', 'n']) == TokenType::Return,
        spec_lookup_ident(seq!['L', 'e', 't']) == TokenType::Ident,
        w != seq!['f', 'n'] && w != seq!['l', 'e', 't'] && w != seq!['t', 'r', 'u', 'e'] && w != seq![
            'f',
            'a',
            'l',
            's',
            'e',
        ] && w != seq!['i', 'f'] && w != seq!['e', 'l', 's', 'e'] && w != seq!['r', 'e', 't', 'u', 'r', 'n']
            ==> spec_lookup_ident(w) == TokenType::Ident,
{
    reveal_strlit("fn");
    reveal_strlit("let");
    reveal_strlit("true");
    reveal_strlit("false");
    reveal_strlit("if");
    reveal_strlit("else");
    reveal_strlit("return");
    assert("fn"@ =~= seq!['f', 'n']);
    assert("let"@ =~= seq!['l', 'e', 't']);
    assert("true"@ =~= seq!['t', 'r', 'u', 'e']);
    assert("false"@ =~= seq!['f', 'a', 'l', 's', 'e']);
    assert("if"@ =~= seq!['i', 'f']);
    assert("else"@ =~= seq!['e', 'l', 's', 'e']);
    assert("return"@ =~= seq!['r', 'e', 't', 'u', 'r', 'n']);
    let u = seq!['L', 'e', 't'];
    assert(u[0] != "let"@[0]);
    assert(u.len() != "fn"@.len() && u.len() != "true"@.len() && u.len() != "false"@.len());
    assert(u.len() != "if"@.len() && u.len() != "else"@.len() && u.len() != "return"@.len());
}

/// Returns the keyword kind of `ident`, or `Ident` when it is no keyword.
pub fn lookup_ident(ident: &str) -> (t: TokenType)
    ensures
        t == spec_lookup_ident(ident@),
{
    let s = ident.to_owned();
    if s == String::from_str("fn") {
        TokenType::Function
    } else if s == String::from_str("let") {
        TokenType::Let
    } else if s == String::from_str("true") {
        TokenType::True
    } else if s == String::from_str("false") {
        TokenType::False
    } else if s == String::from_str("if") {
        TokenType::If
    } else if s == String::from_str("else") {
        TokenType::Else
    } else if s == String::from_str("return") {
        TokenType::Return
    } else {
        TokenType::Ident
    }
}

impl Token {
    /// Builds a token of kind `ttype` over `literal`.
    pub fn new(ttype: TokenType, literal: String) -> (t: Token)
        ensures
            t.ttype == ttype,
            t.literal@ == literal@,
    {
        Token { ttype, literal }
    }
}


/// How a token kind is written in messages.
pub open spec fn token_name(t: TokenType) -> Seq<char> {
    match t {
        TokenType::Illegal => "ILLEGAL"@,
        TokenType::Eof => "EOF"@,
        TokenType::Ident => "IDENT"@,
        TokenType::Int => "INT"@,
        TokenType::String => "STRING"@,
        TokenType::Assign => "="@,
        TokenType::Plus => "+"@,
        TokenType::Minus => "-"@,
        TokenType::Bang => "!"@,
        TokenType::Asterisk => "*"@,
        TokenType::Slash => "/"@,
        TokenType::Lt => "<"@,
        TokenType::Gt => ">"@,
        TokenType::Eq => "=="@,
        TokenType::NotEq => "!="@,
        TokenType::Comma => ","@,
        TokenType::Semicolon => ";"@,
        TokenType::Colon => ":"@,
        TokenType::LParen => "("@,
        TokenType::RParen => ")"@,
        TokenType::LBrace => "{"@,
        TokenType::RBrace => "}"@,
        TokenType::LBracket => "["@,
        TokenType::RBracket => "]"@,
        TokenType::Function => "FUNCTION"@,
        TokenType::Let => "LET"@,
        TokenType::True => "TRUE"@,
        TokenType::False => "FALSE"@,
        TokenType::If => "IF"@,
        TokenType::Else => "ELSE"@,
        TokenType::Return => "RETURN"@,
    }
}

impl TokenType {
    /// How this token kind is written in messages.
    pub fn name(&self) -> (r: &'static str)
        ensures
            r@ == token_name(*self),
    {
        match self {
            TokenType::Illegal => "ILLEGAL",
            TokenType::Eof => "EOF",
            TokenType::Ident => "IDENT",
            TokenType::Int => "INT",
            TokenType::String => "STRING",
            TokenType::Assign => "=",
            TokenType::Plus => "+",
            TokenType::Minus => "-",
            TokenType::Bang => "!",
            TokenType::Asterisk => "*",
            TokenType::Slash => "/",
            TokenType::Lt => "<",
            TokenType::Gt => ">",
            TokenType::Eq => "==",
            TokenType::NotEq => "!=",
            TokenType::Comma => ",",
            TokenType::Semicolon => ";",
            TokenType::Colon => ":",
            TokenType::LParen => "(",
            TokenType::RParen => ")",
            TokenType::LBrace => "{",
            TokenType::RBrace => "}",
            TokenType::LBracket => "[",
            TokenType::RBracket => "]",
            TokenType::Function => "FUNCTION",
            TokenType::Let => "LET",
            TokenType::True => "TRUE",
            TokenType::False => "FALSE",
            TokenType::If => "IF",
            TokenType::Else => "ELSE",
            TokenType::Return => "RETURN",
        }
    }
}

} // verus!
