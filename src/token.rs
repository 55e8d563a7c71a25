use vstd::prelude::*;

verus! {

/// The closed set of token kinds produced by the lexer.
#[derive(PartialEq, Eq, Structural, Debug, Copy, Clone)]
pub enum TokenType {
    Illegal,
    EOF,
    // identifiers and literals
    Ident,
    Int,
    Float,
    String,
    // operators
    Comma,
    DoubleColon,
    DoubleDot,
    Ellipsis,
    At,
    Plus,
    Minus,
    Bang,
    Asterisk,
    Slash,
    LesserThan,
    GreaterThan,
    Equals,
    // delimiters
    Section,
    Pipe,
    LParen,
    RParen,
    LBrace,
    RBrace,
    LBracket,
    RBracket,
    // keywords
    Function,
    SetKeyword,
    True,
    False,
    If,
    When,
    While,
    Include,
}

/// A classified lexeme together with the 1-based row and column where it starts.
#[derive(PartialEq, Eq, Debug)]
pub struct Token {
    pub token_type: TokenType,
    pub col: u32,
    pub row: u32,
    pub literal: String,
}

/// The mathematical content of a token.
pub struct TokenModel {
    pub kind: TokenType,
    pub row: u32,
    pub col: u32,
    pub literal: Seq<char>,
}

impl View for Token {
    type V = TokenModel;

    open spec fn view(&self) -> TokenModel {
        TokenModel { kind: self.token_type, row: self.row, col: self.col, literal: self.literal@ }
    }
}

} // verus!
