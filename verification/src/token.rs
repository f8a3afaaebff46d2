//! Tokens: the kinds the lexer tells apart, and a kind paired with the source
//! fragment it was read from.
use crate::text::owned;
use vstd::prelude::*;

verus! {

/// The kind of a lexical token.
#[derive(Hash, Clone, Copy, Debug, PartialEq, Eq, Structural)]
pub enum TokenType {
    ILLEGAL,
    EOF,
    IDENT,
    INT,
    ASSIGN,
    PLUS,
    MINUS,
    SLASH,
    ASTERISK,
    LT,
    GT,
    BANG,
    EQ,
    NEQ,
    COMMA,
    SEMICOLON,
    LPAREN,
    RPAREN,
    LBRACE,
    RBRACE,
    FUNCTION,
    LET,
    IF,
    ELSE,
    RETURN,
    TRUE,
    FALSE,
}

/// A token: its kind and the source fragment it stands for, if any.
#[derive(Debug, PartialEq, Eq)]
pub struct Token {
    pub token_type: TokenType,
    pub literal: Option<String>,
}

/// The mathematical content of a [`Token`].
pub struct TokenView {
    pub token_type: TokenType,
    pub literal: Option<Seq<char>>,
}

impl View for Token {
    type V = TokenView;

    open spec fn view(&self) -> TokenView {
        TokenView {
            token_type: self.token_type,
            literal: match self.literal {
                Some(s) => Some(s@),
                None => None,
            },
        }
    }
}

impl TokenView {
    /// The literal's characters; none for a token without a literal.
    pub open spec fn text(self) -> Seq<char> {
        match self.literal {
            Some(s) => s,
            None => Seq::empty(),
        }
    }
}

/// The token of kind `token_type` whose literal is `literal`.
pub open spec fn token(token_type: TokenType, literal: Seq<char>) -> TokenView {
    TokenView { token_type, literal: Some(literal) }
}

/// The token of kind `token_type` that carries no literal.
pub open spec fn bare_token(token_type: TokenType) -> TokenView {
    TokenView { token_type, literal: None }
}

impl Token {
    /// A token of the given kind with a copy of the given literal.
    pub fn new(token_type: TokenType, literal: Option<&str>) -> (t: Token)
        ensures
            t@.token_type == token_type,
            t@.literal == match literal {
                Some(s) => Some(s@),
                None => None,
            },
    {
        match literal {
            Some(s) => Token { token_type, literal: Some(owned(s)) },
            None => Token { token_type, literal: None },
        }
    }

    /// The literal's characters as a fresh string; the empty string for a
    /// token without a literal.
    pub fn text(&self) -> (s: String)
        ensures
            s@ == self@.text(),
    {
        match &self.literal {
            Some(l) => l.clone(),
            None => String::new(),
        }
    }
}

impl Clone for Token {
    fn clone(&self) -> (t: Token)
        ensures
            t@ == self@,
    {
        match &self.literal {
            Some(l) => Token { token_type: self.token_type, literal: Some(l.clone()) },
            None => Token { token_type: self.token_type, literal: None },
        }
    }
}

/// The name of a token kind, as it appears in diagnostics.
pub open spec fn kind_name(t: TokenType) -> Seq<char> {
    match t {
        TokenType::ILLEGAL => "ILLEGAL"@,
        TokenType::EOF => "EOF"@,
        TokenType::IDENT => "IDENT"@,
        TokenType::INT => "INT"@,
        TokenType::ASSIGN => "ASSIGN"@,
        TokenType::PLUS => "PLUS"@,
        TokenType::MINUS => "MINUS"@,
        TokenType::SLASH => "SLASH"@,
        TokenType::ASTERISK => "ASTERISK"@,
        TokenType::LT => "LT"@,
        TokenType::GT => "GT"@,
        TokenType::BANG => "BANG"@,
        TokenType::EQ => "EQ"@,
        TokenType::NEQ => "NEQ"@,
        TokenType::COMMA => "COMMA"@,
        TokenType::SEMICOLON => "SEMICOLON"@,
        TokenType::LPAREN => "LPAREN"@,
        TokenType::RPAREN => "RPAREN"@,
        TokenType::LBRACE => "LBRACE"@,
        TokenType::RBRACE => "RBRACE"@,
        TokenType::FUNCTION => "FUNCTION"@,
        TokenType::LET => "LET"@,
        TokenType::IF => "IF"@,
        TokenType::ELSE => "ELSE"@,
        TokenType::RETURN => "RETURN"@,
        TokenType::TRUE => "TRUE"@,
        TokenType::FALSE => "FALSE"@,
    }
}

impl TokenType {
    /// The name of this kind, as it appears in diagnostics.
    pub fn name(&self) -> (s: &'static str)
        ensures
            s@ == kind_name(*self),
    {
        match self {
            TokenType::ILLEGAL => "ILLEGAL",
            TokenType::EOF => "EOF",
            TokenType::IDENT => "IDENT",
            TokenType::INT => "INT",
            TokenType::ASSIGN => "ASSIGN",
            TokenType::PLUS => "PLUS",
            TokenType::MINUS => "MINUS",
            TokenType::SLASH => "SLASH",
            TokenType::ASTERISK => "ASTERISK",
            TokenType::LT => "LT",
            TokenType::GT => "GT",
            TokenType::BANG => "BANG",
            TokenType::EQ => "EQ",
            TokenType::NEQ => "NEQ",
            TokenType::COMMA => "COMMA",
            TokenType::SEMICOLON => "SEMICOLON",
            TokenType::LPAREN => "LPAREN",
            TokenType::RPAREN => "RPAREN",
            TokenType::LBRACE => "LBRACE",
            TokenType::RBRACE => "RBRACE",
            TokenType::FUNCTION => "FUNCTION",
            TokenType::LET => "LET",
            TokenType::IF => "IF",
            TokenType::ELSE => "ELSE",
            TokenType::RETURN => "RETURN",
            TokenType::TRUE => "TRUE",
            TokenType::FALSE => "FALSE",
        }
    }
}

} // verus!
