//! Lines: a single line of text tokenized on its own, and the reduction of
//! tokens to expressions.
use vstd::prelude::*;

use crate::chars::{is_whitespace, push_char, to_chars, trim_end, trim_end_chars, white_space};
use crate::lexing::{
    composite_at, composite_base, composite_base_of, is_digit, lemma_read_run_bounds,
    predicated_char_writes, read_run, CharRun,
};
use crate::structs::{
    arithmetic_of, composite_of, exprs_view, lemma_exprs_view_push, CompositeRelationalOperator, Expr,
    ExprConversionFailure, ExprErrorView, ExprView, RelationalOperator, EXPECTED_PERIOD,
    EXPECTED_RIGHT_ANGLE, EXPECTED_STRING, EXPECTED_STRING_AFTER_EQUALS,
    EXPECTED_STRING_OR_RIGHT_ANGLE, EXPECTED_TOKEN_AFTER_ATTRIBUTE, EXPECTED_TOKEN_AFTER_PERIOD,
    INCORRECT_START,
};
use crate::token::{
    dangling_escape, lemma_tokens_view_push, tokens_view, Operator, Token, TokenError,
    TokenErrorView, TokenView, CHAR_AFTER_BACKSLASH,
};

verus! {

/// The value of a string of decimal digits.
pub open spec fn digits_value(d: Seq<char>) -> nat
    decreases d.len(),
{
    if d.len() == 0 {
        0
    } else {
        digits_value(d.drop_last()) * 10 + ((d.last() as u32 - '0' as u32) as nat)
    }
}

/// `s` without a leading `+`.
pub open spec fn unsigned_part(s: Seq<char>) -> Seq<char> {
    if s.len() > 0 && s[0] == '+' {
        s.skip(1)
    } else {
        s
    }
}

pub open spec fn all_digits(d: Seq<char>) -> bool {
    forall|k: int| 0 <= k < d.len() ==> is_digit(#[trigger] d[k])
}

/// The unsigned 16-bit integer that `s` spells: an optional `+`, then one
/// or more decimal digits whose value is at most 65535.
pub open spec fn parse_u16(s: Seq<char>) -> Option<u16> {
    let d = unsigned_part(s);
    if d.len() > 0 && all_digits(d) && digits_value(d) <= u16::MAX {
        Some(digits_value(d) as u16)
    } else {
        None
    }
}

proof fn lemma_digits_value_grows(d: Seq<char>, m: int)
    requires
        0 <= m <= d.len(),
        all_digits(d),
    ensures
        digits_value(d.take(m)) <= digits_value(d),
    decreases d.len(),
{
    if m < d.len() {
        assert(d.drop_last().take(m) =~= d.take(m));
        lemma_digits_value_grows(d.drop_last(), m);
    } else {
        assert(d.take(m) =~= d);
    }
}

/// Reads `chars` as an unsigned 16-bit integer.
pub fn parse_u16_chars(chars: &Vec<char>) -> (r: Option<u16>)
    ensures
        r == parse_u16(chars@),
{
    let n = chars.len();
    let start: usize = if n > 0 && chars[0] == '+' {
        1
    } else {
        0
    };
    let ghost d = unsigned_part(chars@);
    assert(d =~= chars@.subrange(start as int, n as int));
    if start >= n {
        return None;
    }
    let mut value: u32 = 0;
    let mut k: usize = start;
    while k < n
        invariant
            start <= k <= n,
            n == chars@.len(),
            d == chars@.subrange(start as int, n as int),
            d == unsigned_part(chars@),
            forall|m: int| 0 <= m < k - start ==> is_digit(#[trigger] d[m]),
            value == digits_value(d.take(k - start)),
            value <= u16::MAX,
        decreases n - k,
    {
        let c = chars[k];
        assert(d[k - start] == c);
        if !('0' <= c && c <= '9') {
            assert(!is_digit(d[k - start]));
            assert(!all_digits(d));
            return None;
        }
        assert(d.take(k + 1 - start).drop_last() =~= d.take(k - start));
        assert(d.take(k + 1 - start).last() == c);
        value = value * 10 + (c as u32 - '0' as u32);
        k = k + 1;
        if value > 65535 {
            proof {
                if all_digits(d) {
                    lemma_digits_value_grows(d, k - start);
                }
            }
            return None;
        }
    }
    assert(d.take(k - start) =~= d);
    Some(value as u16)
}

/// A word as an expression: an integer where it reads as one, else raw text.
pub open spec fn number_or_raw(s: Seq<char>) -> ExprView {
    match parse_u16(s) {
        Some(n) => ExprView::Int(n),
        None => ExprView::Raw(s),
    }
}

/// The text that may stand as the value of an attribute.
pub open spec fn value_of(t: TokenView) -> Option<Seq<char>> {
    match t {
        TokenView::Identifier(s) => Some(s),
        TokenView::StringLiteral(s) => Some(s),
        _ => None,
    }
}

/// The end of a selector trait-tag, from the position `p` where its period
/// is due: the period, then the trait's name.
pub open spec fn selector_trait(
    ts: Seq<TokenView>,
    p: int,
    dollar: TokenView,
    src: Seq<char>,
    arg: Option<Seq<char>>,
) -> Result<(ExprView, int), ExprErrorView> {
    if p >= ts.len() {
        Err(ExprErrorView::UnexpectedLastToken(dollar, EXPECTED_PERIOD@))
    } else if ts[p] != TokenView::Op(Operator::Period) {
        Err(ExprErrorView::InvalidToken(ts[p], EXPECTED_PERIOD@))
    } else if p + 1 >= ts.len() {
        Err(ExprErrorView::UnexpectedLastToken(dollar, EXPECTED_STRING@))
    } else {
        match ts[p + 1] {
            TokenView::Identifier(name) => Ok(
                (ExprView::Trait { src, arg, trait_name: name }, p + 2),
            ),
            other => Err(ExprErrorView::InvalidToken(other, EXPECTED_STRING@)),
        }
    }
}

/// A selector trait-tag `$src<arg>.trait` whose `$` stands at `i`; the
/// angle-bracketed argument may be left out, or be empty.
pub open spec fn selector_step(ts: Seq<TokenView>, i: int) -> Result<(ExprView, int), ExprErrorView> {
    let dollar = ts[i];
    if i + 1 >= ts.len() {
        Err(ExprErrorView::UnexpectedLastToken(dollar, EXPECTED_STRING@))
    } else {
        match ts[i + 1] {
            TokenView::Identifier(src) => {
                let k = i + 2;
                if k < ts.len() && ts[k] == TokenView::Op(Operator::LeftAngle) {
                    if k + 1 >= ts.len() {
                        Err(
                            ExprErrorView::UnexpectedLastToken(
                                dollar,
                                EXPECTED_STRING_OR_RIGHT_ANGLE@,
                            ),
                        )
                    } else {
                        match ts[k + 1] {
                            TokenView::Identifier(a) => if k + 2 >= ts.len() {
                                Err(ExprErrorView::UnexpectedLastToken(dollar, EXPECTED_RIGHT_ANGLE@))
                            } else if ts[k + 2] == TokenView::Op(Operator::RightAngle) {
                                selector_trait(ts, k + 3, dollar, src, Some(a))
                            } else {
                                Err(ExprErrorView::InvalidToken(ts[k + 2], EXPECTED_RIGHT_ANGLE@))
                            },
                            TokenView::Op(Operator::RightAngle) => selector_trait(
                                ts,
                                k + 2,
                                dollar,
                                src,
                                Some(Seq::empty()),
                            ),
                            other => Err(
                                ExprErrorView::InvalidToken(other, EXPECTED_STRING_OR_RIGHT_ANGLE@),
                            ),
                        }
                    }
                } else {
                    selector_trait(ts, k, dollar, src, None)
                }
            },
            other => Err(ExprErrorView::InvalidToken(other, EXPECTED_STRING@)),
        }
    }
}

/// A word at `i`: the start of an attribute `key=value` or of a bare
/// trait-tag `src.trait`, or else a word on its own.
pub open spec fn word_step(ts: Seq<TokenView>, i: int, s: Seq<char>) -> Result<
    (ExprView, int),
    ExprErrorView,
> {
    let t = ts[i];
    if i + 1 < ts.len() && ts[i + 1] == TokenView::Op(Operator::EqualsSign) {
        if i + 2 >= ts.len() {
            Err(ExprErrorView::UnexpectedLastToken(t, EXPECTED_TOKEN_AFTER_ATTRIBUTE@))
        } else {
            match value_of(ts[i + 2]) {
                Some(v) => Ok((ExprView::Attribute { key: s, val: v }, i + 3)),
                None => Err(ExprErrorView::InvalidToken(ts[i + 2], EXPECTED_STRING_AFTER_EQUALS@)),
            }
        }
    } else if i + 1 < ts.len() && ts[i + 1] == TokenView::Op(Operator::Period) {
        if i + 2 >= ts.len() {
            Err(ExprErrorView::UnexpectedLastToken(t, EXPECTED_TOKEN_AFTER_PERIOD@))
        } else {
            match ts[i + 2] {
                TokenView::Identifier(name) => Ok(
                    (ExprView::Trait { src: s, arg: None, trait_name: name }, i + 3),
                ),
                other => Err(ExprErrorView::InvalidToken(other, EXPECTED_STRING@)),
            }
        }
    } else {
        Ok((number_or_raw(s), i + 1))
    }
}

/// One step of the reducer at `i`: the expression that starts there and
/// the position after it.
pub open spec fn reduce_step(ts: Seq<TokenView>, i: int) -> Result<(ExprView, int), ExprErrorView> {
    let t = ts[i];
    match t {
        TokenView::Identifier(s) => word_step(ts, i, s),
        TokenView::Number(s) => Ok((number_or_raw(s), i + 1)),
        TokenView::StringLiteral(s) => Ok((ExprView::Raw(s), i + 1)),
        TokenView::Indent => Err(ExprErrorView::NotSupported(t)),
        TokenView::Dedent => Err(ExprErrorView::NotSupported(t)),
        TokenView::Op(op) => if op == Operator::EqualsSign || op == Operator::Period {
            Err(ExprErrorView::InvalidToken(t, INCORRECT_START@))
        } else if op == Operator::Bang {
            Err(ExprErrorView::NotYetImplemented(t))
        } else if op == Operator::NewLine {
            Err(ExprErrorView::NotSupported(t))
        } else if op == Operator::Dollar {
            selector_step(ts, i)
        } else if op == Operator::Colon {
            Ok((ExprView::Colon, i + 1))
        } else if op == Operator::LeftAngle {
            Ok((ExprView::Relational(RelationalOperator::LessThan), i + 1))
        } else if op == Operator::RightAngle {
            Ok((ExprView::Relational(RelationalOperator::GreaterThan), i + 1))
        } else if arithmetic_of(op) is Some {
            Ok((ExprView::Arithmetic(arithmetic_of(op)->0), i + 1))
        } else {
            Ok((ExprView::Relational(composite_of(op)->0.relational()), i + 1))
        },
    }
}

pub proof fn lemma_reduce_step_advances(ts: Seq<TokenView>, i: int)
    requires
        0 <= i < ts.len(),
    ensures
        reduce_step(ts, i) matches Ok((e, j)) ==> i < j <= ts.len(),
{
}

/// The reducer from position `i` on, with the expressions `acc` found so far.
/// Each step moves forward (`lemma_reduce_step_advances`); the guard on the
/// positions only makes that evident to Verus.
pub open spec fn reduce_from(ts: Seq<TokenView>, i: int, acc: Seq<ExprView>) -> Result<
    Seq<ExprView>,
    ExprErrorView,
>
    decreases ts.len() - i,
{
    if i < 0 || i >= ts.len() {
        Ok(acc)
    } else {
        match reduce_step(ts, i) {
            Ok((e, j)) => if i < j <= ts.len() {
                reduce_from(ts, j, acc.push(e))
            } else {
                Ok(acc)
            },
            Err(err) => Err(err),
        }
    }
}

/// The expressions of a token stream.
pub open spec fn reduce(ts: Seq<TokenView>) -> Result<Seq<ExprView>, ExprErrorView> {
    reduce_from(ts, 0, Seq::empty())
}

pub open spec fn step_result_view(r: Result<(Expr, usize), ExprConversionFailure>) -> Result<
    (ExprView, int),
    ExprErrorView,
> {
    match r {
        Ok((e, j)) => Ok((e@, j as int)),
        Err(err) => Err(err@),
    }
}

pub open spec fn reduce_result_view(r: Result<Vec<Expr>, ExprConversionFailure>) -> Result<
    Seq<ExprView>,
    ExprErrorView,
> {
    match r {
        Ok(v) => Ok(exprs_view(v@)),
        Err(err) => Err(err@),
    }
}

/// A copy of `t`.
fn copy_token(t: &Token) -> (r: Token)
    ensures
        r@ == t@,
{
    match t {
        Token::Op(op) => Token::Op(*op),
        Token::Indent => Token::Indent,
        Token::Dedent => Token::Dedent,
        Token::StringLiteral(s) => Token::StringLiteral(s.clone()),
        Token::Number(s) => Token::Number(s.clone()),
        Token::Identifier(s) => Token::Identifier(s.clone()),
    }
}

fn is_op(t: &Token, op: Operator) -> (r: bool)
    ensures
        r == (t@ == TokenView::Op(op)),
{
    match t {
        Token::Op(o) => *o == op,
        _ => false,
    }
}

/// A word as an expression: an integer where it reads as one, else raw text.
pub fn number_or_raw_of(s: &String) -> (r: Expr)
    ensures
        r@ == number_or_raw(s@),
{
    let chars = to_chars(s.as_str());
    match parse_u16_chars(&chars) {
        Some(n) => Expr::Int(n),
        None => Expr::Raw(s.clone()),
    }
}

fn selector_trait_exec(
    ts: &Vec<Token>,
    p: usize,
    dollar: &Token,
    src: &String,
    arg: Option<String>,
) -> (r: Result<(Expr, usize), ExprConversionFailure>)
    requires
        p <= ts@.len(),
    ensures
        step_result_view(r) == selector_trait(
            tokens_view(ts@),
            p as int,
            dollar@,
            src@,
            crate::structs::optional_text_view(arg),
        ),
{
    let n = ts.len();
    if p >= n {
        return Err(ExprConversionFailure::UnexpectedLastToken(copy_token(dollar), EXPECTED_PERIOD));
    }
    if !is_op(&ts[p], Operator::Period) {
        return Err(ExprConversionFailure::InvalidToken(copy_token(&ts[p]), EXPECTED_PERIOD));
    }
    if p + 1 >= n {
        return Err(ExprConversionFailure::UnexpectedLastToken(copy_token(dollar), EXPECTED_STRING));
    }
    match &ts[p + 1] {
        Token::Identifier(name) => Ok(
            (Expr::Trait { src: src.clone(), arg, trait_name: name.clone() }, p + 2),
        ),
        other => Err(ExprConversionFailure::InvalidToken(copy_token(other), EXPECTED_STRING)),
    }
}

fn selector_step_exec(ts: &Vec<Token>, i: usize) -> (r: Result<(Expr, usize), ExprConversionFailure>)
    requires
        i < ts@.len(),
    ensures
        step_result_view(r) == selector_step(tokens_view(ts@), i as int),
{
    let n = ts.len();
    let dollar = &ts[i];
    if i + 1 >= n {
        return Err(ExprConversionFailure::UnexpectedLastToken(copy_token(dollar), EXPECTED_STRING));
    }
    let src = match &ts[i + 1] {
        Token::Identifier(src) => src,
        other => return Err(ExprConversionFailure::InvalidToken(copy_token(other), EXPECTED_STRING)),
    };
    let k = i + 2;
    if k < n && is_op(&ts[k], Operator::LeftAngle) {
        if k + 1 >= n {
            return Err(
                ExprConversionFailure::UnexpectedLastToken(
                    copy_token(dollar),
                    EXPECTED_STRING_OR_RIGHT_ANGLE,
                ),
            );
        }
        match &ts[k + 1] {
            Token::Identifier(a) => {
                if k + 2 >= n {
                    return Err(
                        ExprConversionFailure::UnexpectedLastToken(
                            copy_token(dollar),
                            EXPECTED_RIGHT_ANGLE,
                        ),
                    );
                }
                if is_op(&ts[k + 2], Operator::RightAngle) {
                    selector_trait_exec(ts, k + 3, dollar, src, Some(a.clone()))
                } else {
                    Err(
                        ExprConversionFailure::InvalidToken(
                            copy_token(&ts[k + 2]),
                            EXPECTED_RIGHT_ANGLE,
                        ),
                    )
                }
            },
            Token::Op(Operator::RightAngle) => {
                let empty = String::new();
                selector_trait_exec(ts, k + 2, dollar, src, Some(empty))
            },
            other => Err(
                ExprConversionFailure::InvalidToken(
                    copy_token(other),
                    EXPECTED_STRING_OR_RIGHT_ANGLE,
                ),
            ),
        }
    } else {
        selector_trait_exec(ts, k, dollar, src, None)
    }
}

fn word_step_exec(ts: &Vec<Token>, i: usize, s: &String) -> (r: Result<
    (Expr, usize),
    ExprConversionFailure,
>)
    requires
        i < ts@.len(),
        ts@[i as int]@ == TokenView::Identifier(s@),
    ensures
        step_result_view(r) == word_step(tokens_view(ts@), i as int, s@),
{
    let n = ts.len();
    if i + 1 < n && is_op(&ts[i + 1], Operator::EqualsSign) {
        if i + 2 >= n {
            return Err(
                ExprConversionFailure::UnexpectedLastToken(
                    copy_token(&ts[i]),
                    EXPECTED_TOKEN_AFTER_ATTRIBUTE,
                ),
            );
        }
        match &ts[i + 2] {
            Token::Identifier(v) => Ok((Expr::Attribute { key: s.clone(), val: v.clone() }, i + 3)),
            Token::StringLiteral(v) => Ok(
                (Expr::Attribute { key: s.clone(), val: v.clone() }, i + 3),
            ),
            other => Err(
                ExprConversionFailure::InvalidToken(copy_token(other), EXPECTED_STRING_AFTER_EQUALS),
            ),
        }
    } else if i + 1 < n && is_op(&ts[i + 1], Operator::Period) {
        if i + 2 >= n {
            return Err(
                ExprConversionFailure::UnexpectedLastToken(
                    copy_token(&ts[i]),
                    EXPECTED_TOKEN_AFTER_PERIOD,
                ),
            );
        }
        match &ts[i + 2] {
            Token::Identifier(name) => Ok(
                (Expr::Trait { src: s.clone(), arg: None, trait_name: name.clone() }, i + 3),
            ),
            other => Err(ExprConversionFailure::InvalidToken(copy_token(other), EXPECTED_STRING)),
        }
    } else {
        Ok((number_or_raw_of(s), i + 1))
    }
}

fn reduce_step_exec(ts: &Vec<Token>, i: usize) -> (r: Result<(Expr, usize), ExprConversionFailure>)
    requires
        i < ts@.len() <= usize::MAX,
    ensures
        step_result_view(r) == reduce_step(tokens_view(ts@), i as int),
{
    let next = i + 1;
    let t = &ts[i];
    match t {
        Token::Identifier(s) => word_step_exec(ts, i, s),
        Token::Number(s) => Ok((number_or_raw_of(s), next)),
        Token::StringLiteral(s) => Ok((Expr::Raw(s.clone()), next)),
        Token::Indent | Token::Dedent => Err(ExprConversionFailure::NotSupported(copy_token(t))),
        Token::Op(op) => {
            let op = *op;
            if op == Operator::EqualsSign || op == Operator::Period {
                Err(ExprConversionFailure::InvalidToken(copy_token(t), INCORRECT_START))
            } else if op == Operator::Bang {
                Err(ExprConversionFailure::NotYetImplemented(copy_token(t)))
            } else if op == Operator::NewLine {
                Err(ExprConversionFailure::NotSupported(copy_token(t)))
            } else if op == Operator::Dollar {
                selector_step_exec(ts, i)
            } else if op == Operator::Colon {
                Ok((Expr::Colon, next))
            } else if op == Operator::LeftAngle {
                Ok((Expr::Relational(RelationalOperator::LessThan), next))
            } else if op == Operator::RightAngle {
                Ok((Expr::Relational(RelationalOperator::GreaterThan), next))
            } else if let Some(a) = op.arithmetic() {
                Ok((Expr::Arithmetic(a), next))
            } else {
                match op.composite() {
                    Some(c) => Ok((Expr::Relational(CompositeRelationalOperator::into(&c)), next)),
                    None => {
                        assert(false);
                        Ok((Expr::Colon, next))
                    },
                }
            }
        },
    }
}

/// Reduces a token stream to expressions: folds attributes and trait-tags,
/// and passes every other token through as the expression it stands for.
pub fn reduce_tokens(tokens: &Vec<Token>) -> (r: Result<Vec<Expr>, ExprConversionFailure>)
    ensures
        reduce_result_view(r) == reduce(tokens_view(tokens@)),
{
    let mut out: Vec<Expr> = Vec::new();
    let mut i: usize = 0;
    assert(exprs_view(out@) =~= Seq::<ExprView>::empty());
    while i < tokens.len()
        invariant
            i <= tokens@.len(),
            reduce_from(tokens_view(tokens@), i as int, exprs_view(out@)) == reduce(
                tokens_view(tokens@),
            ),
        decreases tokens@.len() - i,
    {
        proof {
            lemma_reduce_step_advances(tokens_view(tokens@), i as int);
        }
        match reduce_step_exec(tokens, i) {
            Ok((e, j)) => {
                let ghost before = out@;
                let ghost ev = e;
                out.push(e);
                proof {
                    lemma_exprs_view_push(before, ev);
                }
                i = j;
            },
            Err(err) => return Err(err),
        }
    }
    Ok(out)
}

/// A single line: the width of its leading whitespace and its members,
/// tokens or expressions.
#[derive(Debug, Clone, PartialEq)]
pub struct Line<T> {
    /// How many whitespace characters lead into the line.
    pub leading_whitespace: usize,
    /// What the line holds, in order.
    pub members: Vec<T>,
}

/// Why a line could not be read as expressions.
#[derive(Debug, Clone, PartialEq)]
pub enum LineConversionFailure {
    /// The line could not be tokenized.
    TokenFailure(TokenError),
    /// The tokens could not be reduced.
    ExprFailure(ExprConversionFailure),
}

pub enum LineErrorView {
    TokenFailure(TokenErrorView),
    ExprFailure(ExprErrorView),
}

impl View for LineConversionFailure {
    type V = LineErrorView;

    open spec fn view(&self) -> LineErrorView {
        match self {
            LineConversionFailure::TokenFailure(e) => LineErrorView::TokenFailure(e@),
            LineConversionFailure::ExprFailure(e) => LineErrorView::ExprFailure(e@),
        }
    }
}

/// The operator that a character stands for on its own within a line.
pub open spec fn line_operator(c: char) -> Option<Operator> {
    if c == ':' {
        Some(Operator::Colon)
    } else if c == '.' {
        Some(Operator::Period)
    } else if c == '[' {
        Some(Operator::LeftBracket)
    } else if c == ']' {
        Some(Operator::RightBracket)
    } else if c == '/' {
        Some(Operator::Slash)
    } else if c == '*' {
        Some(Operator::Asterisk)
    } else if c == '-' {
        Some(Operator::Minus)
    } else if c == '+' {
        Some(Operator::Plus)
    } else if c == '%' {
        Some(Operator::Mod)
    } else if c == '$' {
        Some(Operator::Dollar)
    } else {
        None
    }
}

fn line_operator_of(c: char) -> (r: Option<Operator>)
    ensures
        r == line_operator(c),
{
    match c {
        ':' => Some(Operator::Colon),
        '.' => Some(Operator::Period),
        '[' => Some(Operator::LeftBracket),
        ']' => Some(Operator::RightBracket),
        '/' => Some(Operator::Slash),
        '*' => Some(Operator::Asterisk),
        '-' => Some(Operator::Minus),
        '+' => Some(Operator::Plus),
        '%' => Some(Operator::Mod),
        '$' => Some(Operator::Dollar),
        _ => None,
    }
}

/// `toks`, followed by the word in `buf` if there is one: a word that
/// holds a quoted part is one even where it is empty (`""`).
pub open spec fn flush(toks: Seq<TokenView>, buf: Seq<char>, quoted: bool) -> Seq<TokenView> {
    if buf.len() > 0 || quoted {
        toks.push(TokenView::Identifier(buf))
    } else {
        toks
    }
}

/// The tokenizer of a line from position `i` on, with the word collected
/// so far in `buf` (`quoted` where it holds a closed quoted part) and the
/// tokens found so far in `toks`. Words are
/// delimited by whitespace and operators; a quoted part joins the word it
/// stands in; a backslash escapes the next character; `#` ends the line.
/// Each step moves forward; the guards on the positions only make that
/// evident to Verus.
pub open spec fn line_from(
    s: Seq<char>,
    i: int,
    buf: Seq<char>,
    quoted: bool,
    toks: Seq<TokenView>,
) -> Result<
    Seq<TokenView>,
    TokenErrorView,
>
    decreases s.len() - i,
{
    if i < 0 || i >= s.len() {
        Ok(flush(toks, buf, quoted))
    } else {
        let c = s[i];
        if white_space(c) {
            line_from(s, i + 1, Seq::empty(), false, flush(toks, buf, quoted))
        } else if c == '\\' {
            if i + 1 < s.len() {
                line_from(s, i + 2, buf.push(s[i + 1]), quoted, toks)
            } else {
                Err(dangling_escape())
            }
        } else if c == '#' {
            Ok(flush(toks, buf, quoted))
        } else if line_operator(c) is Some {
            line_from(
                s,
                i + 1,
                Seq::empty(),
                false,
                flush(toks, buf, quoted).push(TokenView::Op(line_operator(c)->0)),
            )
        } else if composite_base(c) is Some {
            let (lone, joined) = composite_base(c)->0;
            let (t, j) = composite_at(s, i, lone, joined);
            if i < j {
                line_from(s, j, Seq::empty(), false, flush(toks, buf, quoted).push(t))
            } else {
                Ok(toks)
            }
        } else if c == '\'' || c == '"' {
            match read_run(s, i + 1, CharRun::Quoted(c), buf) {
                Ok((b, j)) => if i < j < s.len() {
                    line_from(s, j + 1, b, true, toks)
                } else {
                    Err(TokenErrorView::UnterminatedStringLiteral(b))
                },
                Err(e) => Err(e),
            }
        } else {
            line_from(s, i + 1, buf.push(c), quoted, toks)
        }
    }
}

/// The first position at or after `i` that is not whitespace.
pub open spec fn space_end(s: Seq<char>, i: int) -> int
    decreases s.len() - i,
{
    if 0 <= i < s.len() && white_space(s[i]) {
        space_end(s, i + 1)
    } else {
        i
    }
}

/// A line of text as tokens: the width of its leading whitespace, which
/// must repeat a single character, and the tokens after it.
pub open spec fn tokenize_line_spec(text: Seq<char>) -> Result<(nat, Seq<TokenView>), TokenErrorView> {
    let s = trim_end(text);
    let n = space_end(s, 0);
    if s.len() == 0 {
        Err(TokenErrorView::NoTokensPresent)
    } else if exists|k: int| 0 <= k < n && #[trigger] s[k] != s[0] {
        Err(TokenErrorView::InconsistentWhitespace)
    } else {
        match line_from(s, n, Seq::empty(), false, Seq::empty()) {
            Ok(ts) => if ts.len() == 0 {
                Err(TokenErrorView::NoTokensPresent)
            } else {
                Ok((n as nat, ts))
            },
            Err(e) => Err(e),
        }
    }
}

/// A line of text as expressions.
pub open spec fn extract_tokens_spec(text: Seq<char>) -> Result<(nat, Seq<ExprView>), LineErrorView> {
    match tokenize_line_spec(text) {
        Ok((n, ts)) => match reduce(ts) {
            Ok(es) => Ok((n, es)),
            Err(e) => Err(LineErrorView::ExprFailure(e)),
        },
        Err(e) => Err(LineErrorView::TokenFailure(e)),
    }
}

pub open spec fn token_line_view(r: Result<Line<Token>, TokenError>) -> Result<
    (nat, Seq<TokenView>),
    TokenErrorView,
> {
    match r {
        Ok(l) => Ok((l.leading_whitespace as nat, tokens_view(l.members@))),
        Err(e) => Err(e@),
    }
}

pub open spec fn expr_line_view(r: Result<Line<Expr>, LineConversionFailure>) -> Result<
    (nat, Seq<ExprView>),
    LineErrorView,
> {
    match r {
        Ok(l) => Ok((l.leading_whitespace as nat, exprs_view(l.members@))),
        Err(e) => Err(e@),
    }
}

/// Pushes the word in `buf`, if there is one, as an identifier.
fn flush_buf(toks: &mut Vec<Token>, buf: String, quoted: bool)
    ensures
        tokens_view(final(toks)@) == flush(tokens_view(old(toks)@), buf@, quoted),
{
    if quoted || !buf.as_str().is_empty() {
        let ghost before = toks@;
        let t = Token::Identifier(buf);
        let ghost tv = t;
        toks.push(t);
        proof {
            lemma_tokens_view_push(before, tv);
        }
    }
}

fn push_token(toks: &mut Vec<Token>, t: Token)
    ensures
        tokens_view(final(toks)@) == tokens_view(old(toks)@).push(t@),
{
    let ghost before = toks@;
    let ghost tv = t;
    toks.push(t);
    proof {
        lemma_tokens_view_push(before, tv);
    }
}

/// Tokenizes a single line of text, after dropping its trailing whitespace.
pub fn tokenize_line(text: &str) -> (r: Result<Line<Token>, TokenError>)
    ensures
        token_line_view(r) == tokenize_line_spec(text@),
{
    let s = trim_end_chars(to_chars(text));
    let n = s.len();
    if n == 0 {
        return Err(TokenError::NoTokensPresent);
    }
    let first = s[0];
    let mut lead: usize = 0;
    while lead < n && is_whitespace(s[lead])
        invariant
            s@ == trim_end(text@),
            lead <= n,
            n == s@.len(),
            n > 0,
            first == s@[0],
            space_end(s@, lead as int) == space_end(s@, 0),
            forall|m: int| 0 <= m < lead ==> s@[m] == first,
        decreases n - lead,
    {
        if s[lead] != first {
            proof {
                assert(lead < space_end(s@, 0)) by {
                    assert(space_end(s@, lead as int) == space_end(s@, lead + 1));
                    lemma_space_end_bounds(s@, lead + 1);
                }
            }
            return Err(TokenError::InconsistentWhitespace);
        }
        lead = lead + 1;
    }
    assert(space_end(s@, lead as int) == lead);
    assert(!(exists|k: int| 0 <= k < lead && #[trigger] s@[k] != s@[0]));
    let mut buf = String::new();
    let mut quoted = false;
    let mut toks: Vec<Token> = Vec::new();
    let mut i = lead;
    assert(tokens_view(toks@) =~= Seq::<TokenView>::empty());
    while i < n
        invariant
            s@ == trim_end(text@),
            lead <= i <= n,
            n == s@.len(),
            n > 0,
            lead == space_end(s@, 0),
            forall|m: int| 0 <= m < lead ==> #[trigger] s@[m] == s@[0],
            line_from(s@, i as int, buf@, quoted, tokens_view(toks@)) == line_from(
                s@,
                lead as int,
                Seq::empty(),
                false,
                Seq::empty(),
            ),
        decreases n - i,
    {
        let c = s[i];
        if is_whitespace(c) {
            flush_buf(&mut toks, buf, quoted);
            buf = String::new();
            quoted = false;
            i = i + 1;
        } else if c == '\\' {
            if i + 1 < n {
                push_char(&mut buf, s[i + 1]);
                i = i + 2;
            } else {
                return Err(TokenError::UnexpectedEndOfLine(CHAR_AFTER_BACKSLASH));
            }
        } else if c == '#' {
            i = n;
        } else if let Some(op) = line_operator_of(c) {
            flush_buf(&mut toks, buf, quoted);
            buf = String::new();
            quoted = false;
            push_token(&mut toks, Token::Op(op));
            i = i + 1;
        } else if let Some((lone, joined)) = composite_base_of(c) {
            flush_buf(&mut toks, buf, quoted);
            buf = String::new();
            quoted = false;
            if i + 1 < n && s[i + 1] == '=' {
                push_token(&mut toks, Token::Op(joined));
                i = i + 2;
            } else {
                push_token(&mut toks, Token::Op(lone));
                i = i + 1;
            }
        } else if c == '\'' || c == '"' {
            let mut p = i + 1;
            proof {
                lemma_read_run_bounds(s@, i + 1, CharRun::Quoted(c), buf@);
            }
            match predicated_char_writes(buf, &s, &mut p, CharRun::Quoted(c)) {
                Ok(b) => {
                    if p < n {
                        buf = b;
                        quoted = true;
                        i = p + 1;
                    } else {
                        return Err(TokenError::UnterminatedStringLiteral(b));
                    }
                },
                Err(e) => return Err(e),
            }
        } else {
            push_char(&mut buf, c);
            i = i + 1;
        }
    }
    flush_buf(&mut toks, buf, quoted);
    if toks.len() == 0 {
        return Err(TokenError::NoTokensPresent);
    }
    proof {
        lemma_space_end_bounds(s@, 0);
        if exists|k: int| 0 <= k < space_end(s@, 0) && #[trigger] s@[k] != s@[0] {
            let k = choose|k: int| 0 <= k < space_end(s@, 0) && #[trigger] s@[k] != s@[0];
            assert(s@[k] == first);
        }
    }
    Ok(Line { leading_whitespace: lead, members: toks })
}

pub proof fn lemma_space_end_bounds(s: Seq<char>, i: int)
    requires
        0 <= i <= s.len(),
    ensures
        i <= space_end(s, i) <= s.len(),
        forall|k: int| i <= k < space_end(s, i) ==> white_space(#[trigger] s[k]),
    decreases s.len() - i,
{
    if i < s.len() && white_space(s[i]) {
        lemma_space_end_bounds(s, i + 1);
    }
}

/// Reduces the tokens of a line to expressions; the leading whitespace
/// is kept.
pub fn reduce_line(line: &Line<Token>) -> (r: Result<Line<Expr>, ExprConversionFailure>)
    ensures
        match reduce(tokens_view(line.members@)) {
            Ok(es) => r is Ok && r->Ok_0.leading_whitespace == line.leading_whitespace
                && exprs_view(r->Ok_0.members@) == es,
            Err(e) => r is Err && r->Err_0@ == e,
        },
{
    match reduce_tokens(&line.members) {
        Ok(members) => Ok(Line { leading_whitespace: line.leading_whitespace, members }),
        Err(e) => Err(e),
    }
}

/// Reads a single line of text as expressions: tokenizes it, then reduces
/// the tokens.
pub fn extract_tokens(text: &str) -> (r: Result<Line<Expr>, LineConversionFailure>)
    ensures
        expr_line_view(r) == extract_tokens_spec(text@),
{
    let line = match tokenize_line(text) {
        Ok(l) => l,
        Err(e) => return Err(LineConversionFailure::TokenFailure(e)),
    };
    match reduce_line(&line) {
        Ok(l) => Ok(l),
        Err(e) => Err(LineConversionFailure::ExprFailure(e)),
    }
}

} // verus!
