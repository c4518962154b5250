//! The data a scan produces: token kinds, literal values, tokens and the
//! error that ends a failed scan, each with its mathematical view.

use vstd::prelude::*;

verus! {

/// The lexical category of a token. The set is closed.
#[derive(Eq, PartialEq, Debug, Copy, Clone, Structural)]
pub enum TokenType {
    // Single-character tokens.
    LeftParen,
    RightParen,
    LeftBrace,
    RightBrace,
    LeftBracket,
    RightBracket,
    Comma,
    Dot,
    Minus,
    Plus,
    Semicolon,
    Slash,
    Star,
    // One or two character tokens.
    Bang,
    BangEqual,
    Equal,
    EqualEqual,
    Greater,
    GreaterEqual,
    Less,
    LessEqual,
    // Literals.
    Identifier,
    String,
    Number,
    // Keywords.
    And,
    Class,
    Else,
    False,
    Fun,
    For,
    If,
    Nil,
    Or,
    Print,
    Return,
    Super,
    This,
    True,
    Var,
    While,
    Lambda,
    // End of input.
    Eof,
}

/// The value carried by an identifier, a string or a number token.
///
/// A number carries its numeral exactly as written (digits, optionally a dot
/// and more digits); turning the numeral into a floating-point value is left
/// to the caller.
#[derive(Debug, Clone)]
pub enum Literal {
    Identifier(String),
    Str(String),
    Number(String),
}

/// What a [`Literal`] is, with its text as a sequence of characters.
pub enum LiteralView {
    Identifier(Seq<char>),
    Str(Seq<char>),
    Number(Seq<char>),
}

impl View for Literal {
    type V = LiteralView;

    open spec fn view(&self) -> LiteralView {
        match self {
            Literal::Identifier(text) => LiteralView::Identifier(text@),
            Literal::Str(text) => LiteralView::Str(text@),
            Literal::Number(text) => LiteralView::Number(text@),
        }
    }
}

/// One token: its kind, the bytes it was read from, its literal value if it
/// has one, and the line and column of the scanner when it was emitted.
#[derive(Debug, Clone)]
pub struct Token {
    pub tty: TokenType,
    pub lexeme: Vec<u8>,
    pub literal: Option<Literal>,
    pub line: usize,
    pub col: i64,
}

/// What a [`Token`] is.
pub struct TokenView {
    pub tty: TokenType,
    pub lexeme: Seq<u8>,
    pub literal: Option<LiteralView>,
    pub line: int,
    pub col: int,
}

impl View for Token {
    type V = TokenView;

    open spec fn view(&self) -> TokenView {
        TokenView {
            tty: self.tty,
            lexeme: self.lexeme@,
            literal: match self.literal {
                Some(literal) => Some(literal@),
                None => None,
            },
            line: self.line as int,
            col: self.col as int,
        }
    }
}

/// The views of a sequence of tokens, in order.
pub open spec fn token_views(tokens: Seq<Token>) -> Seq<TokenView> {
    tokens.map_values(|token: Token| token@)
}

/// The first lexical failure of a scan: a message and the position of the
/// scanner when it gave up.
#[derive(Debug)]
pub struct ScannerError {
    pub what: String,
    pub line: usize,
    pub col: i64,
}

/// What a [`ScannerError`] is.
pub struct ScannerErrorView {
    pub what: Seq<char>,
    pub line: int,
    pub col: int,
}

impl View for ScannerError {
    type V = ScannerErrorView;

    open spec fn view(&self) -> ScannerErrorView {
        ScannerErrorView { what: self.what@, line: self.line as int, col: self.col as int }
    }
}

} // verus!
