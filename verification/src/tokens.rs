//! Lexical tokens, as handed over by the tokenizer.
//!
//! The tokenizer itself is an external collaborator: it turns raw text into
//! an ordered token stream and attributes a source line to each token for
//! diagnostics.  This module only fixes the shape of that stream.

use vstd::prelude::*;

verus! {

/// One lexical token.
#[derive(Debug)]
pub enum Token {
    /// An integer literal.
    Number(i32),
    /// A quoted string literal, quotes removed.
    StringLiteral(String),
    /// A variable name: an alphabetic lead character, alphanumerics, and an
    /// optional trailing `$` that marks the variable as string-typed.
    Identifier(String),
    /// A `REM` comment together with its trailing text.
    Rem(String),
    // Statement keywords.
    Let,
    Print,
    Pause,
    Input,
    Wait,
    Goto,
    Gosub,
    Return,
    If,
    Then,
    Else,
    For,
    To,
    Step,
    Next,
    End,
    Data,
    Read,
    Restore,
    Poke,
    Call,
    Dim,
    // Logical operators.
    And,
    Or,
    // Comparison and arithmetic punctuation.
    Equal,
    NotEqual,
    Less,
    LessEqual,
    Greater,
    GreaterEqual,
    Plus,
    Minus,
    Star,
    Slash,
    // Grouping and separators.
    LeftParen,
    RightParen,
    Comma,
    Semicolon,
    Colon,
    /// End of a source line.
    Newline,
}

/// The mathematical value of a [`Token`]: text payloads become character
/// sequences.
pub enum TokenS {
    Number(i32),
    StringLiteral(Seq<char>),
    Identifier(Seq<char>),
    Rem(Seq<char>),
    Let,
    Print,
    Pause,
    Input,
    Wait,
    Goto,
    Gosub,
    Return,
    If,
    Then,
    Else,
    For,
    To,
    Step,
    Next,
    End,
    Data,
    Read,
    Restore,
    Poke,
    Call,
    Dim,
    And,
    Or,
    Equal,
    NotEqual,
    Less,
    LessEqual,
    Greater,
    GreaterEqual,
    Plus,
    Minus,
    Star,
    Slash,
    LeftParen,
    RightParen,
    Comma,
    Semicolon,
    Colon,
    Newline,
}

impl DeepView for Token {
    type V = TokenS;

    open spec fn deep_view(&self) -> TokenS {
        match self {
            Token::Number(n) => TokenS::Number(*n),
            Token::StringLiteral(s) => TokenS::StringLiteral(s@),
            Token::Identifier(s) => TokenS::Identifier(s@),
            Token::Rem(s) => TokenS::Rem(s@),
            Token::Let => TokenS::Let,
            Token::Print => TokenS::Print,
            Token::Pause => TokenS::Pause,
            Token::Input => TokenS::Input,
            Token::Wait => TokenS::Wait,
            Token::Goto => TokenS::Goto,
            Token::Gosub => TokenS::Gosub,
            Token::Return => TokenS::Return,
            Token::If => TokenS::If,
            Token::Then => TokenS::Then,
            Token::Else => TokenS::Else,
            Token::For => TokenS::For,
            Token::To => TokenS::To,
            Token::Step => TokenS::Step,
            Token::Next => TokenS::Next,
            Token::End => TokenS::End,
            Token::Data => TokenS::Data,
            Token::Read => TokenS::Read,
            Token::Restore => TokenS::Restore,
            Token::Poke => TokenS::Poke,
            Token::Call => TokenS::Call,
            Token::Dim => TokenS::Dim,
            Token::And => TokenS::And,
            Token::Or => TokenS::Or,
            Token::Equal => TokenS::Equal,
            Token::NotEqual => TokenS::NotEqual,
            Token::Less => TokenS::Less,
            Token::LessEqual => TokenS::LessEqual,
            Token::Greater => TokenS::Greater,
            Token::GreaterEqual => TokenS::GreaterEqual,
            Token::Plus => TokenS::Plus,
            Token::Minus => TokenS::Minus,
            Token::Star => TokenS::Star,
            Token::Slash => TokenS::Slash,
            Token::LeftParen => TokenS::LeftParen,
            Token::RightParen => TokenS::RightParen,
            Token::Comma => TokenS::Comma,
            Token::Semicolon => TokenS::Semicolon,
            Token::Colon => TokenS::Colon,
            Token::Newline => TokenS::Newline,
        }
    }
}

/// A token together with the source line it was read from.
#[derive(Debug)]
pub struct SourceToken {
    pub token: Token,
    pub line: u32,
}

/// The mathematical value of a [`SourceToken`].
pub struct STok {
    pub tok: TokenS,
    pub line: u32,
}

impl DeepView for SourceToken {
    type V = STok;

    open spec fn deep_view(&self) -> STok {
        STok { tok: self.token.deep_view(), line: self.line }
    }
}

} // verus!
