//! The token universe and the error taxonomy, with their views.
use vstd::prelude::*;

verus! {

/// The nesting index carried by bracket tokens.
pub type BalancingDepthType = i32;

/// Declared so that a lexer error can carry an input error.
#[verifier::external_type_specification]
#[verifier::external_body]
pub struct ExIoError(std::io::Error);

#[derive(Debug, PartialEq, Eq, Clone, Copy)]
pub enum NumericHint {
    Integer,
    FloatingPoint,
}

#[derive(Debug, PartialEq, Eq, Clone, Copy)]
pub enum PunctuationKind {
    /// '(', '[', '{'
    Open(BalancingDepthType),
    /// ')', ']', '}'
    Close(BalancingDepthType),
    /// ',', ';'
    Separator,
}

#[derive(Debug, PartialEq)]
pub enum TokenType {
    /// End of the token stream.
    EOF,
    /// Brackets and separators.
    Punctuation { raw: char, kind: PunctuationKind },
    /// Operator lexemes such as '*' or '->'.
    Operators(String),
    /// A sequence of identifier characters.
    Identifier(String),
    /// A single codepoint literal.
    Char(char),
    /// A decimal numeric literal with its lexeme.
    Numeric { raw: String, hint: NumericHint },
    /// Placeholder for unclassifiable input.
    Unknown(char),
}

pub type Token = TokenType;

#[derive(Debug)]
pub enum LexerError {
    FileIO(std::io::Error),
    MissingExpectedSymbol { expected: TokenType, found: Token },
    NumericLiteralInvalidChar { raw: String },
    MisbalancedSymbol { symbol: char, open: char },
    UnknownSymbol { symbol: String },
}

impl From<std::io::Error> for LexerError {
    fn from(e: std::io::Error) -> (r: LexerError) {
        LexerError::FileIO(e)
    }
}

impl vstd::std_specs::convert::FromSpecImpl<std::io::Error> for LexerError {
    open spec fn obeys_from_spec() -> bool {
        true
    }

    open spec fn from_spec(e: std::io::Error) -> LexerError {
        LexerError::FileIO(e)
    }
}

/// A token with its strings seen as sequences of characters.
pub enum TokenView {
    EOF,
    Punctuation { raw: char, kind: PunctuationKind },
    Operators(Seq<char>),
    Identifier(Seq<char>),
    Char(char),
    Numeric { raw: Seq<char>, hint: NumericHint },
    Unknown(char),
}

/// An error with its strings seen as sequences of characters; the input
/// error itself is not looked into.
pub enum ErrorView {
    FileIO,
    MissingExpectedSymbol { expected: TokenView, found: TokenView },
    NumericLiteralInvalidChar { raw: Seq<char> },
    MisbalancedSymbol { symbol: char, open: char },
    UnknownSymbol { symbol: Seq<char> },
}

impl View for TokenType {
    type V = TokenView;

    open spec fn view(&self) -> TokenView {
        match self {
            TokenType::EOF => TokenView::EOF,
            TokenType::Punctuation { raw, kind } => TokenView::Punctuation { raw: *raw, kind: *kind },
            TokenType::Operators(s) => TokenView::Operators(s@),
            TokenType::Identifier(s) => TokenView::Identifier(s@),
            TokenType::Char(c) => TokenView::Char(*c),
            TokenType::Numeric { raw, hint } => TokenView::Numeric { raw: raw@, hint: *hint },
            TokenType::Unknown(c) => TokenView::Unknown(*c),
        }
    }
}

impl View for LexerError {
    type V = ErrorView;

    open spec fn view(&self) -> ErrorView {
        match self {
            LexerError::FileIO(_) => ErrorView::FileIO,
            LexerError::MissingExpectedSymbol { expected, found } => ErrorView::MissingExpectedSymbol {
                expected: expected@,
                found: found@,
            },
            LexerError::NumericLiteralInvalidChar { raw } => ErrorView::NumericLiteralInvalidChar {
                raw: raw@,
            },
            LexerError::MisbalancedSymbol { symbol, open } => ErrorView::MisbalancedSymbol {
                symbol: *symbol,
                open: *open,
            },
            LexerError::UnknownSymbol { symbol } => ErrorView::UnknownSymbol { symbol: symbol@ },
        }
    }
}

/// The outcome of one call of the tokenizer, seen through the views.
pub type StepView = Result<TokenView, ErrorView>;

pub open spec fn result_view(r: Result<TokenType, LexerError>) -> StepView {
    match r {
        Ok(t) => Ok(t@),
        Err(e) => Err(e@),
    }
}

} // verus!
