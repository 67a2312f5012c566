//! Tokens: their kinds, positions and text.
use vstd::prelude::*;
use crate::text::string_of_str;

verus! {

/// The kind of a token.
#[derive(Debug, PartialEq, Eq, Clone, Copy, Structural)]
pub enum TokenType {
    Identifier,
    Integer,
    Double,
    String,
    LeftBracket,
    RightBracket,
    LeftBrace,
    RightBrace,
    LeftParen,
    RightParen,
    Plus,
    Minus,
    Star,
    Slash,
    Percent,
    StarStar,
    And,
    Pipe,
    Caret,
    AndAnd,
    PipePipe,
    Semicolon,
    Equal,
    EqualEqual,
    Bang,
    BangEqual,
    LessThan,
    LessThanEqual,
    GreaterThan,
    GreaterThanEqual,
    Comma,
    Return,
    Function,
    For,
    If,
    Else,
    While,
    Break,
    Continue,
    Let,
}

/// The name of a token kind, as it is written in the source above.
pub open spec fn token_type_name(t: TokenType) -> Seq<char> {
    match t {
        TokenType::Identifier => "Identifier"@,
        TokenType::Integer => "Integer"@,
        TokenType::Double => "Double"@,
        TokenType::String => "String"@,
        TokenType::LeftBracket => "LeftBracket"@,
        TokenType::RightBracket => "RightBracket"@,
        TokenType::LeftBrace => "LeftBrace"@,
        TokenType::RightBrace => "RightBrace"@,
        TokenType::LeftParen => "LeftParen"@,
        TokenType::RightParen => "RightParen"@,
        TokenType::Plus => "Plus"@,
        TokenType::Minus => "Minus"@,
        TokenType::Star => "Star"@,
        TokenType::Slash => "Slash"@,
        TokenType::Percent => "Percent"@,
        TokenType::StarStar => "StarStar"@,
        TokenType::And => "And"@,
        TokenType::Pipe => "Pipe"@,
        TokenType::Caret => "Caret"@,
        TokenType::AndAnd => "AndAnd"@,
        TokenType::PipePipe => "PipePipe"@,
        TokenType::Semicolon => "Semicolon"@,
        TokenType::Equal => "Equal"@,
        TokenType::EqualEqual => "EqualEqual"@,
        TokenType::Bang => "Bang"@,
        TokenType::BangEqual => "BangEqual"@,
        TokenType::LessThan => "LessThan"@,
        TokenType::LessThanEqual => "LessThanEqual"@,
        TokenType::GreaterThan => "GreaterThan"@,
        TokenType::GreaterThanEqual => "GreaterThanEqual"@,
        TokenType::Comma => "Comma"@,
        TokenType::Return => "Return"@,
        TokenType::Function => "Function"@,
        TokenType::For => "For"@,
        TokenType::If => "If"@,
        TokenType::Else => "Else"@,
        TokenType::While => "While"@,
        TokenType::Break => "Break"@,
        TokenType::Continue => "Continue"@,
        TokenType::Let => "Let"@,
    }
}

impl TokenType {
    /// The name of this token kind (what `{:?}` prints for it).
    pub fn name(&self) -> (r: &'static str)
        ensures
            r@ == token_type_name(*self),
    {
        match self {
            TokenType::Identifier => "Identifier",
            TokenType::Integer => "Integer",
            TokenType::Double => "Double",
            TokenType::String => "String",
            TokenType::LeftBracket => "LeftBracket",
            TokenType::RightBracket => "RightBracket",
            TokenType::LeftBrace => "LeftBrace",
            TokenType::RightBrace => "RightBrace",
            TokenType::LeftParen => "LeftParen",
            TokenType::RightParen => "RightParen",
            TokenType::Plus => "Plus",
            TokenType::Minus => "Minus",
            TokenType::Star => "Star",
            TokenType::Slash => "Slash",
            TokenType::Percent => "Percent",
            TokenType::StarStar => "StarStar",
            TokenType::And => "And",
            TokenType::Pipe => "Pipe",
            TokenType::Caret => "Caret",
            TokenType::AndAnd => "AndAnd",
            TokenType::PipePipe => "PipePipe",
            TokenType::Semicolon => "Semicolon",
            TokenType::Equal => "Equal",
            TokenType::EqualEqual => "EqualEqual",
            TokenType::Bang => "Bang",
            TokenType::BangEqual => "BangEqual",
            TokenType::LessThan => "LessThan",
            TokenType::LessThanEqual => "LessThanEqual",
            TokenType::GreaterThan => "GreaterThan",
            TokenType::GreaterThanEqual => "GreaterThanEqual",
            TokenType::Comma => "Comma",
            TokenType::Return => "Return",
            TokenType::Function => "Function",
            TokenType::For => "For",
            TokenType::If => "If",
            TokenType::Else => "Else",
            TokenType::While => "While",
            TokenType::Break => "Break",
            TokenType::Continue => "Continue",
            TokenType::Let => "Let",
        }
    }
}

/// A place in the source: line and column, both counted from 1.
#[derive(Debug, PartialEq, Eq, Clone, Copy, Structural)]
pub struct Position {
    pub line: usize,
    pub column: usize,
}

/// A token: its kind, where it starts and the source text it was read from.
#[derive(Debug, PartialEq, Clone)]
pub struct Token {
    pub position: Position,
    pub typ: TokenType,
    pub text: String,
}

/// The mathematical value of a token.
pub struct TokenView {
    pub typ: TokenType,
    pub line: usize,
    pub column: usize,
    pub text: Seq<char>,
}

impl View for Token {
    type V = TokenView;

    open spec fn view(&self) -> TokenView {
        TokenView {
            typ: self.typ,
            line: self.position.line,
            column: self.position.column,
            text: self.text@,
        }
    }
}

impl Token {
    /// A token of kind `typ` at `line`:`column` with text `text`.
    pub fn new(typ: TokenType, line: usize, column: usize, text: &str) -> (t: Token)
        ensures
            t@ == (TokenView { typ, line, column, text: text@ }),
    {
        Token { position: Position { line, column }, typ, text: string_of_str(text) }
    }
}

} // verus!
