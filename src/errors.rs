//! Names and messages of the error types.
use vstd::prelude::*;
use vstd::string::StringExecFns;

use crate::chars::push_char;
use crate::lines::LineConversionFailure;
use crate::render::token_text;
use crate::token::Token;
use crate::structs::ExprConversionFailure;
use crate::token::TokenError;

verus! {

/// An error that has a name and may have a message; as text it reads
/// `Name: message`, or `Name` alone where there is no message.
pub trait ErrorEnum {
    /// The name of the variant.
    spec fn name_spec(&self) -> Seq<char>;

    /// The message shown after the name, if any.
    spec fn message_spec(&self) -> Option<Seq<char>>;

    /// The name of the variant.
    fn name(&self) -> (r: String)
        ensures
            r@ == self.name_spec(),
    ;

    /// The message shown after the name, if any.
    fn message(&self) -> (r: Option<String>)
        ensures
            crate::structs::optional_text_view(r) == self.message_spec(),
    ;
}

/// The text of an error: its name, then `": "` and the message if it has one.
pub open spec fn describe_spec(name: Seq<char>, message: Option<Seq<char>>) -> Seq<char> {
    match message {
        Some(m) => name + ": "@ + m,
        None => name,
    }
}

/// The text of an error: its name, then `": "` and the message if it has one.
pub fn describe<E: ErrorEnum>(e: &E) -> (r: String)
    ensures
        r@ == describe_spec(e.name_spec(), e.message_spec()),
{
    let mut out = e.name();
    match e.message() {
        Some(m) => {
            out.append(": ");
            out.append(m.as_str());
        },
        None => {},
    }
    out
}

fn text_of(s: &str) -> (r: String)
    ensures
        r@ == s@,
{
    let mut out = String::new();
    out.append(s);
    out
}

impl ErrorEnum for TokenError {
    open spec fn name_spec(&self) -> Seq<char> {
        match self {
            TokenError::NoTokensPresent => "NoTokensPresent"@,
            TokenError::InconsistentWhitespace => "InconsistentWhitespace"@,
            TokenError::InconsistentWhitespaceCount => "InconsistentWhitespaceCount"@,
            TokenError::UnexpectedEndOfLine(_) => "UnexpectedEndOfLine"@,
            TokenError::UnterminatedStringLiteral(_) => "UnterminatedStringLiteral"@,
            TokenError::InvalidCharacter(_) => "InvalidCharacter"@,
        }
    }

    open spec fn message_spec(&self) -> Option<Seq<char>> {
        match self {
            TokenError::UnexpectedEndOfLine(e) => Some("expected "@ + e@ + ", got end of line"@),
            TokenError::UnterminatedStringLiteral(s) => Some(s@),
            TokenError::InvalidCharacter(c) => Some(seq![*c]),
            _ => None,
        }
    }

    fn name(&self) -> (r: String) {
        match self {
            TokenError::NoTokensPresent => text_of("NoTokensPresent"),
            TokenError::InconsistentWhitespace => text_of("InconsistentWhitespace"),
            TokenError::InconsistentWhitespaceCount => text_of("InconsistentWhitespaceCount"),
            TokenError::UnexpectedEndOfLine(_) => text_of("UnexpectedEndOfLine"),
            TokenError::UnterminatedStringLiteral(_) => text_of("UnterminatedStringLiteral"),
            TokenError::InvalidCharacter(_) => text_of("InvalidCharacter"),
        }
    }

    fn message(&self) -> (r: Option<String>) {
        match self {
            TokenError::UnexpectedEndOfLine(e) => {
                let mut out = text_of("expected ");
                out.append(e);
                out.append(", got end of line");
                Some(out)
            },
            TokenError::UnterminatedStringLiteral(s) => Some(s.clone()),
            TokenError::InvalidCharacter(c) => {
                let mut out = String::new();
                push_char(&mut out, *c);
                assert(out@ =~= seq![*c]);
                Some(out)
            },
            _ => None,
        }
    }
}

/// `before`, the text of `t` in single quotes, then `after`.
fn quote_token(before: &str, t: &Token, after: &str) -> (r: String)
    ensures
        r@ == before@ + "'"@ + token_text(t@) + "'"@ + after@,
{
    let mut out = text_of(before);
    out.append("'");
    out.append(t.text().as_str());
    out.append("'");
    out.append(after);
    out
}

impl ErrorEnum for ExprConversionFailure {
    open spec fn name_spec(&self) -> Seq<char> {
        match self {
            ExprConversionFailure::InvalidToken(..) => "InvalidToken"@,
            ExprConversionFailure::UnexpectedLastToken(..) => "UnexpectedLastToken"@,
            ExprConversionFailure::NotSupported(_) => "NotSupported"@,
            ExprConversionFailure::NotYetImplemented(_) => "NotYetImplemented"@,
        }
    }

    open spec fn message_spec(&self) -> Option<Seq<char>> {
        match self {
            ExprConversionFailure::InvalidToken(t, m) => Some(
                "token "@ + "'"@ + token_text(t@) + "'"@ + ": "@ + m@,
            ),
            ExprConversionFailure::UnexpectedLastToken(t, m) => Some(
                "last token "@ + "'"@ + token_text(t@) + "'"@ + ": "@ + m@,
            ),
            ExprConversionFailure::NotSupported(t) => Some(
                "token "@ + "'"@ + token_text(t@) + "'"@ + " not supported"@,
            ),
            ExprConversionFailure::NotYetImplemented(t) => Some(
                "token "@ + "'"@ + token_text(t@) + "'"@ + " not yet supported"@,
            ),
        }
    }

    fn name(&self) -> (r: String) {
        match self {
            ExprConversionFailure::InvalidToken(..) => text_of("InvalidToken"),
            ExprConversionFailure::UnexpectedLastToken(..) => text_of("UnexpectedLastToken"),
            ExprConversionFailure::NotSupported(_) => text_of("NotSupported"),
            ExprConversionFailure::NotYetImplemented(_) => text_of("NotYetImplemented"),
        }
    }

    fn message(&self) -> (r: Option<String>) {
        match self {
            ExprConversionFailure::InvalidToken(t, m) => {
                let mut out = quote_token("token ", t, ": ");
                out.append(m);
                Some(out)
            },
            ExprConversionFailure::UnexpectedLastToken(t, m) => {
                let mut out = quote_token("last token ", t, ": ");
                out.append(m);
                Some(out)
            },
            ExprConversionFailure::NotSupported(t) => Some(
                quote_token("token ", t, " not supported"),
            ),
            ExprConversionFailure::NotYetImplemented(t) => Some(
                quote_token("token ", t, " not yet supported"),
            ),
        }
    }
}

impl ErrorEnum for LineConversionFailure {
    open spec fn name_spec(&self) -> Seq<char> {
        match self {
            LineConversionFailure::TokenFailure(e) => "TokenFailure::"@ + e.name_spec(),
            LineConversionFailure::ExprFailure(e) => "ExprFailure::"@ + e.name_spec(),
        }
    }

    open spec fn message_spec(&self) -> Option<Seq<char>> {
        match self {
            LineConversionFailure::TokenFailure(e) => e.message_spec(),
            LineConversionFailure::ExprFailure(e) => e.message_spec(),
        }
    }

    fn name(&self) -> (r: String) {
        match self {
            LineConversionFailure::TokenFailure(e) => {
                let mut out = text_of("TokenFailure::");
                out.append(e.name().as_str());
                out
            },
            LineConversionFailure::ExprFailure(e) => {
                let mut out = text_of("ExprFailure::");
                out.append(e.name().as_str());
                out
            },
        }
    }

    fn message(&self) -> (r: Option<String>) {
        match self {
            LineConversionFailure::TokenFailure(e) => e.message(),
            LineConversionFailure::ExprFailure(e) => e.message(),
        }
    }
}

} // verus!
