//! The expression vocabulary that the reducer produces from tokens.
use vstd::prelude::*;

use crate::token::{Operator, Token, TokenView};

verus! {

/// Basic math operators.
#[derive(PartialEq, Eq, Structural, Clone, Copy, Debug)]
pub enum ArithmeticToken {
    /// An opening bracket.
    OpenBracket,
    /// A closing bracket.
    CloseBracket,
    /// A forward slash.
    Div,
    /// An asterisk.
    Mult,
    /// A minus symbol.
    Sub,
    /// A plus symbol.
    Add,
    /// A percentage sign.
    Mod,
}

/// The relational operators that take two characters.
#[derive(PartialEq, Eq, Structural, Clone, Copy, Debug)]
pub enum CompositeRelationalOperator {
    EqualTo,
    GreaterThanEqual,
    LessThanEqual,
    NotEqual,
}

/// Each relational operator has an XML tag named by its abbreviation.
#[derive(PartialEq, Eq, Structural, Clone, Copy, Debug)]
pub enum RelationalOperator {
    EqualTo,
    GreaterThan,
    GreaterThanEqual,
    LessThan,
    LessThanEqual,
    NotEqual,
}

impl CompositeRelationalOperator {
    /// The relational operator of the same name.
    pub open spec fn relational(self) -> RelationalOperator {
        match self {
            CompositeRelationalOperator::EqualTo => RelationalOperator::EqualTo,
            CompositeRelationalOperator::GreaterThanEqual => RelationalOperator::GreaterThanEqual,
            CompositeRelationalOperator::LessThanEqual => RelationalOperator::LessThanEqual,
            CompositeRelationalOperator::NotEqual => RelationalOperator::NotEqual,
        }
    }

    /// The relational operator of the same name.
    pub fn into(&self) -> (r: RelationalOperator)
        ensures
            r == self.relational(),
    {
        match self {
            CompositeRelationalOperator::EqualTo => RelationalOperator::EqualTo,
            CompositeRelationalOperator::GreaterThanEqual => RelationalOperator::GreaterThanEqual,
            CompositeRelationalOperator::LessThanEqual => RelationalOperator::LessThanEqual,
            CompositeRelationalOperator::NotEqual => RelationalOperator::NotEqual,
        }
    }
}

impl RelationalOperator {
    /// The name of the XML tag of the operator.
    pub open spec fn abbr_spec(self) -> Seq<char> {
        match self {
            RelationalOperator::EqualTo => "et"@,
            RelationalOperator::GreaterThan => "gt"@,
            RelationalOperator::GreaterThanEqual => "gte"@,
            RelationalOperator::LessThan => "lt"@,
            RelationalOperator::LessThanEqual => "lte"@,
            RelationalOperator::NotEqual => "ne"@,
        }
    }

    /// The name of the XML tag of the operator.
    pub fn abbr(&self) -> (r: &'static str)
        ensures
            r@ == self.abbr_spec(),
    {
        match self {
            RelationalOperator::EqualTo => "et",
            RelationalOperator::GreaterThan => "gt",
            RelationalOperator::GreaterThanEqual => "gte",
            RelationalOperator::LessThan => "lt",
            RelationalOperator::LessThanEqual => "lte",
            RelationalOperator::NotEqual => "ne",
        }
    }
}

/// The arithmetic operator that an operator token stands for, if any.
pub open spec fn arithmetic_of(op: Operator) -> Option<ArithmeticToken> {
    match op {
        Operator::LeftBracket => Some(ArithmeticToken::OpenBracket),
        Operator::RightBracket => Some(ArithmeticToken::CloseBracket),
        Operator::Slash => Some(ArithmeticToken::Div),
        Operator::Asterisk => Some(ArithmeticToken::Mult),
        Operator::Minus => Some(ArithmeticToken::Sub),
        Operator::Plus => Some(ArithmeticToken::Add),
        Operator::Mod => Some(ArithmeticToken::Mod),
        _ => None,
    }
}

/// The two-character relational operator that an operator token stands for, if any.
pub open spec fn composite_of(op: Operator) -> Option<CompositeRelationalOperator> {
    match op {
        Operator::EqualTo => Some(CompositeRelationalOperator::EqualTo),
        Operator::GreaterThanEqual => Some(CompositeRelationalOperator::GreaterThanEqual),
        Operator::LessThanEqual => Some(CompositeRelationalOperator::LessThanEqual),
        Operator::NotEqual => Some(CompositeRelationalOperator::NotEqual),
        _ => None,
    }
}

impl Operator {
    /// The arithmetic operator that this operator stands for, if any.
    pub fn arithmetic(&self) -> (r: Option<ArithmeticToken>)
        ensures
            r == arithmetic_of(*self),
    {
        match self {
            Operator::LeftBracket => Some(ArithmeticToken::OpenBracket),
            Operator::RightBracket => Some(ArithmeticToken::CloseBracket),
            Operator::Slash => Some(ArithmeticToken::Div),
            Operator::Asterisk => Some(ArithmeticToken::Mult),
            Operator::Minus => Some(ArithmeticToken::Sub),
            Operator::Plus => Some(ArithmeticToken::Add),
            Operator::Mod => Some(ArithmeticToken::Mod),
            _ => None,
        }
    }

    /// The two-character relational operator that this operator is, if any.
    pub fn composite(&self) -> (r: Option<CompositeRelationalOperator>)
        ensures
            r == composite_of(*self),
    {
        match self {
            Operator::EqualTo => Some(CompositeRelationalOperator::EqualTo),
            Operator::GreaterThanEqual => Some(CompositeRelationalOperator::GreaterThanEqual),
            Operator::LessThanEqual => Some(CompositeRelationalOperator::LessThanEqual),
            Operator::NotEqual => Some(CompositeRelationalOperator::NotEqual),
            _ => None,
        }
    }
}

/// A member of a reduced line.
#[derive(Debug, Clone, PartialEq)]
pub enum Expr {
    /// A `key="value"` phrase.
    Attribute { key: String, val: String },
    /// A `src.trait` or `$src<arg>.trait` phrase.
    Trait { src: String, arg: Option<String>, trait_name: String },
    /// A word that reads as a small unsigned integer.
    Int(u16),
    /// A colon, which ends a tag.
    Colon,
    /// A binary arithmetic operator or a bracket.
    Arithmetic(ArithmeticToken),
    /// A binary relational operator.
    Relational(RelationalOperator),
    /// Text that reads as nothing else.
    Raw(String),
}

/// The mathematical value of an [`Expr`].
pub enum ExprView {
    Attribute { key: Seq<char>, val: Seq<char> },
    Trait { src: Seq<char>, arg: Option<Seq<char>>, trait_name: Seq<char> },
    Int(u16),
    Colon,
    Arithmetic(ArithmeticToken),
    Relational(RelationalOperator),
    Raw(Seq<char>),
}

pub open spec fn optional_text_view(s: Option<String>) -> Option<Seq<char>> {
    match s {
        Some(s) => Some(s@),
        None => None,
    }
}

impl View for Expr {
    type V = ExprView;

    open spec fn view(&self) -> ExprView {
        match self {
            Expr::Attribute { key, val } => ExprView::Attribute { key: key@, val: val@ },
            Expr::Trait { src, arg, trait_name } => ExprView::Trait {
                src: src@,
                arg: optional_text_view(*arg),
                trait_name: trait_name@,
            },
            Expr::Int(n) => ExprView::Int(*n),
            Expr::Colon => ExprView::Colon,
            Expr::Arithmetic(a) => ExprView::Arithmetic(*a),
            Expr::Relational(r) => ExprView::Relational(*r),
            Expr::Raw(s) => ExprView::Raw(s@),
        }
    }
}

/// The views of a sequence of expressions.
pub open spec fn exprs_view(v: Seq<Expr>) -> Seq<ExprView> {
    v.map_values(|e: Expr| e@)
}

pub proof fn lemma_exprs_view_push(v: Seq<Expr>, e: Expr)
    ensures
        exprs_view(v.push(e)) == exprs_view(v).push(e@),
{
    assert(exprs_view(v.push(e)) =~= exprs_view(v).push(e@));
}

/// Why a token stream could not be reduced to expressions.
#[derive(Debug, Clone, PartialEq)]
pub enum ExprConversionFailure {
    /// A token that cannot stand here; says what was expected.
    InvalidToken(Token, &'static str),
    /// The tokens ended inside a phrase begun by this token; says what was expected.
    UnexpectedLastToken(Token, &'static str),
    /// A token that expressions do not hold.
    NotSupported(Token),
    /// A token that expressions do not hold yet.
    NotYetImplemented(Token),
}

/// The mathematical value of an [`ExprConversionFailure`].
pub enum ExprErrorView {
    InvalidToken(TokenView, Seq<char>),
    UnexpectedLastToken(TokenView, Seq<char>),
    NotSupported(TokenView),
    NotYetImplemented(TokenView),
}

impl View for ExprConversionFailure {
    type V = ExprErrorView;

    open spec fn view(&self) -> ExprErrorView {
        match self {
            ExprConversionFailure::InvalidToken(t, m) => ExprErrorView::InvalidToken(t@, m@),
            ExprConversionFailure::UnexpectedLastToken(t, m) => ExprErrorView::UnexpectedLastToken(
                t@,
                m@,
            ),
            ExprConversionFailure::NotSupported(t) => ExprErrorView::NotSupported(t@),
            ExprConversionFailure::NotYetImplemented(t) => ExprErrorView::NotYetImplemented(t@),
        }
    }
}

pub const EXPECTED_STRING: &'static str = "expected string";

pub const EXPECTED_PERIOD: &'static str = "expected period";

pub const EXPECTED_RIGHT_ANGLE: &'static str = "expected right angle bracket";

pub const EXPECTED_STRING_OR_RIGHT_ANGLE: &'static str = "expected string or right angle bracket";

pub const EXPECTED_TOKEN_AFTER_ATTRIBUTE: &'static str = "expected token after attribute operator";

pub const EXPECTED_STRING_AFTER_EQUALS: &'static str = "expected string after equals sign";

pub const EXPECTED_TOKEN_AFTER_PERIOD: &'static str = "expected token after period";

pub const INCORRECT_START: &'static str = "incorrect token to start expression";

} // verus!
