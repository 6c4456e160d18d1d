//! The token vocabulary shared by the scanner, the line tokenizer and the reducer.
use vstd::prelude::*;

verus! {

/// One- and two-character operators.
#[derive(PartialEq, Eq, Structural, Clone, Copy, Debug)]
pub enum Operator {
    Dollar,
    Colon,
    Period,
    Bang,
    NewLine,
    LeftBracket,
    RightBracket,
    Slash,
    Asterisk,
    Minus,
    Plus,
    Mod,
    EqualsSign,
    LeftAngle,
    RightAngle,
    NotEqual,
    EqualTo,
    GreaterThanEqual,
    LessThanEqual,
}

/// A lexical unit.
#[derive(Debug, Clone, PartialEq)]
pub enum Token {
    /// Miscellaneous one or two char constants.
    Op(Operator),
    /// An increment in indentation level.
    Indent,
    /// A decrement in indentation level.
    Dedent,
    /// The escape-decoded content of a quoted literal.
    StringLiteral(String),
    /// The text of a numeric literal, of the form `digit+ ('.' digit*)?`.
    Number(String),
    /// A bare word.
    Identifier(String),
}

/// The mathematical value of a [`Token`].
pub enum TokenView {
    Op(Operator),
    Indent,
    Dedent,
    StringLiteral(Seq<char>),
    Number(Seq<char>),
    Identifier(Seq<char>),
}

impl View for Token {
    type V = TokenView;

    open spec fn view(&self) -> TokenView {
        match self {
            Token::Op(op) => TokenView::Op(*op),
            Token::Indent => TokenView::Indent,
            Token::Dedent => TokenView::Dedent,
            Token::StringLiteral(s) => TokenView::StringLiteral(s@),
            Token::Number(s) => TokenView::Number(s@),
            Token::Identifier(s) => TokenView::Identifier(s@),
        }
    }
}

/// The views of a sequence of tokens.
pub open spec fn tokens_view(v: Seq<Token>) -> Seq<TokenView> {
    v.map_values(|t: Token| t@)
}

pub proof fn lemma_tokens_view_push(v: Seq<Token>, t: Token)
    ensures
        tokens_view(v.push(t)) == tokens_view(v).push(t@),
{
    assert(tokens_view(v.push(t)) =~= tokens_view(v).push(t@));
}

/// Why scanning or tokenizing a text failed.
#[derive(Debug, Clone, PartialEq)]
pub enum TokenError {
    /// The text holds nothing but whitespace and comments.
    NoTokensPresent,
    /// A run of leading whitespace mixes characters.
    InconsistentWhitespace,
    /// A run of leading whitespace is not a multiple of the indentation step.
    InconsistentWhitespaceCount,
    /// The text ended where more was required; names what was expected.
    UnexpectedEndOfLine(&'static str),
    /// A quoted literal was not closed; holds its content so far.
    UnterminatedStringLiteral(String),
    /// No rule accepts this character.
    InvalidCharacter(char),
}

/// The mathematical value of a [`TokenError`].
pub enum TokenErrorView {
    NoTokensPresent,
    InconsistentWhitespace,
    InconsistentWhitespaceCount,
    UnexpectedEndOfLine(Seq<char>),
    UnterminatedStringLiteral(Seq<char>),
    InvalidCharacter(char),
}

impl View for TokenError {
    type V = TokenErrorView;

    open spec fn view(&self) -> TokenErrorView {
        match self {
            TokenError::NoTokensPresent => TokenErrorView::NoTokensPresent,
            TokenError::InconsistentWhitespace => TokenErrorView::InconsistentWhitespace,
            TokenError::InconsistentWhitespaceCount => TokenErrorView::InconsistentWhitespaceCount,
            TokenError::UnexpectedEndOfLine(s) => TokenErrorView::UnexpectedEndOfLine(s@),
            TokenError::UnterminatedStringLiteral(s) => TokenErrorView::UnterminatedStringLiteral(s@),
            TokenError::InvalidCharacter(c) => TokenErrorView::InvalidCharacter(*c),
        }
    }
}

/// The message carried by an escape that has nothing to escape.
pub const CHAR_AFTER_BACKSLASH: &'static str = "char after backslash";

/// The error of an escape at the very end of the text.
pub open spec fn dangling_escape() -> TokenErrorView {
    TokenErrorView::UnexpectedEndOfLine(CHAR_AFTER_BACKSLASH@)
}

} // verus!
