use vstd::prelude::*;

verus! {

/// The classification of a lexeme, with the decoded payload where one exists.
#[derive(Debug, Clone, PartialEq)]
pub enum TokenType {
    // single-character punctuation
    LeftParen,
    RightParen,
    LeftBrace,
    RightBrace,
    Comma,
    Minus,
    Plus,
    Semicolon,
    Slash,
    Star,
    // one- or two-character operators
    Bang,
    BangEqual,
    Equal,
    EqualEqual,
    Greater,
    GreaterEqual,
    Less,
    LessEqual,
    // literals
    Identifier,
    String(String),
    Number,
    // reserved words
    And,
    Class,
    Else,
    False,
    For,
    Fun,
    If,
    Nil,
    Or,
    Print,
    Return,
    Super,
    This,
    True,
    Var,
    While,
    // a lexical error, with its message
    Error(&'static str),
    Eof,
}

/// What a token kind means: a payload-free kind, the content of a string
/// literal, or the message of a lexical error.
pub enum Kind {
    Plain(TokenType),
    Text(Seq<char>),
    Fault(Seq<char>),
}

impl View for TokenType {
    type V = Kind;

    open spec fn view(&self) -> Kind {
        match self {
            TokenType::String(s) => Kind::Text(s@),
            TokenType::Error(m) => Kind::Fault(m@),
            _ => Kind::Plain(*self),
        }
    }
}

/// One lexical unit: its kind, the byte span of its lexeme, and the line on
/// which scanning of it stopped.
#[derive(Debug, Clone)]
pub struct Token {
    pub token_type: TokenType,
    pub start: usize,
    pub length: usize,
    pub line: usize,
}

} // verus!
