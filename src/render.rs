//! Textual forms: what tokens, expressions and lines look like as text.
use vstd::prelude::*;
use vstd::string::StringExecFns;

use crate::chars::{alphabetic, alphanumeric, is_alphabetic, is_alphanumeric, push_char};
use crate::lines::Line;
use crate::structs::{exprs_view, ArithmeticToken, Expr, ExprView, RelationalOperator};
use crate::token::{tokens_view, Operator, Token, TokenView};

verus! {

impl Operator {
    /// The characters of the operator.
    pub open spec fn symbol_spec(self) -> Seq<char> {
        match self {
            Operator::Dollar => seq!['$'],
            Operator::Colon => seq![':'],
            Operator::Period => seq!['.'],
            Operator::Bang => seq!['!'],
            Operator::NewLine => seq!['\n'],
            Operator::LeftBracket => seq!['('],
            Operator::RightBracket => seq![')'],
            Operator::Slash => seq!['/'],
            Operator::Asterisk => seq!['*'],
            Operator::Minus => seq!['-'],
            Operator::Plus => seq!['+'],
            Operator::Mod => seq!['%'],
            Operator::EqualsSign => seq!['='],
            Operator::LeftAngle => seq!['<'],
            Operator::RightAngle => seq!['>'],
            Operator::NotEqual => seq!['!', '='],
            Operator::EqualTo => seq!['=', '='],
            Operator::GreaterThanEqual => seq!['>', '='],
            Operator::LessThanEqual => seq!['<', '='],
        }
    }

    /// The characters of the operator.
    pub fn symbol(&self) -> (r: &'static str)
        ensures
            r@ == self.symbol_spec(),
    {
        let r = match self {
            Operator::Dollar => "$",
            Operator::Colon => ":",
            Operator::Period => ".",
            Operator::Bang => "!",
            Operator::NewLine => "\n",
            Operator::LeftBracket => "(",
            Operator::RightBracket => ")",
            Operator::Slash => "/",
            Operator::Asterisk => "*",
            Operator::Minus => "-",
            Operator::Plus => "+",
            Operator::Mod => "%",
            Operator::EqualsSign => "=",
            Operator::LeftAngle => "<",
            Operator::RightAngle => ">",
            Operator::NotEqual => "!=",
            Operator::EqualTo => "==",
            Operator::GreaterThanEqual => ">=",
            Operator::LessThanEqual => "<=",
        };
        proof {
            reveal_strlit("$");
            reveal_strlit(":");
            reveal_strlit(".");
            reveal_strlit("!");
            reveal_strlit("\n");
            reveal_strlit("(");
            reveal_strlit(")");
            reveal_strlit("/");
            reveal_strlit("*");
            reveal_strlit("-");
            reveal_strlit("+");
            reveal_strlit("%");
            reveal_strlit("=");
            reveal_strlit("<");
            reveal_strlit(">");
            reveal_strlit("!=");
            reveal_strlit("==");
            reveal_strlit(">=");
            reveal_strlit("<=");
            assert(r@ =~= self.symbol_spec());
        }
        r
    }
}

impl ArithmeticToken {
    /// The character of the operator, as a line writes it.
    pub open spec fn symbol_spec(self) -> Seq<char> {
        match self {
            ArithmeticToken::OpenBracket => "["@,
            ArithmeticToken::CloseBracket => "]"@,
            ArithmeticToken::Div => "/"@,
            ArithmeticToken::Mult => "*"@,
            ArithmeticToken::Sub => "-"@,
            ArithmeticToken::Add => "+"@,
            ArithmeticToken::Mod => "%"@,
        }
    }

    /// The character of the operator, as a line writes it.
    pub fn symbol(&self) -> (r: &'static str)
        ensures
            r@ == self.symbol_spec(),
    {
        match self {
            ArithmeticToken::OpenBracket => "[",
            ArithmeticToken::CloseBracket => "]",
            ArithmeticToken::Div => "/",
            ArithmeticToken::Mult => "*",
            ArithmeticToken::Sub => "-",
            ArithmeticToken::Add => "+",
            ArithmeticToken::Mod => "%",
        }
    }
}

impl RelationalOperator {
    /// The characters of the operator.
    pub open spec fn symbol_spec(self) -> Seq<char> {
        match self {
            RelationalOperator::EqualTo => "=="@,
            RelationalOperator::GreaterThan => ">"@,
            RelationalOperator::GreaterThanEqual => ">="@,
            RelationalOperator::LessThan => "<"@,
            RelationalOperator::LessThanEqual => "<="@,
            RelationalOperator::NotEqual => "!="@,
        }
    }

    /// The characters of the operator.
    pub fn symbol(&self) -> (r: &'static str)
        ensures
            r@ == self.symbol_spec(),
    {
        match self {
            RelationalOperator::EqualTo => "==",
            RelationalOperator::GreaterThan => ">",
            RelationalOperator::GreaterThanEqual => ">=",
            RelationalOperator::LessThan => "<",
            RelationalOperator::LessThanEqual => "<=",
            RelationalOperator::NotEqual => "!=",
        }
    }
}

/// A character of a word as the scanner reads it back: with a backslash
/// where it could not stand bare (at the start, only `_` and alphabetic
/// characters can).
pub open spec fn word_char_text(c: char, first: bool) -> Seq<char> {
    if c == '_' || (if first {
        alphabetic(c)
    } else {
        alphanumeric(c)
    }) {
        seq![c]
    } else {
        seq!['\\', c]
    }
}

/// The text of a word from position `i` on.
pub open spec fn word_text(w: Seq<char>, i: int) -> Seq<char>
    decreases w.len() - i,
{
    if i < 0 || i >= w.len() {
        Seq::empty()
    } else {
        word_char_text(w[i], i == 0) + word_text(w, i + 1)
    }
}

/// The text of the content of a quoted literal from position `i` on: a
/// backslash before each quote and each backslash.
pub open spec fn quoted_text(s: Seq<char>, i: int) -> Seq<char>
    decreases s.len() - i,
{
    if i < 0 || i >= s.len() {
        Seq::empty()
    } else if s[i] == '"' || s[i] == '\\' {
        seq!['\\', s[i]] + quoted_text(s, i + 1)
    } else {
        seq![s[i]] + quoted_text(s, i + 1)
    }
}

/// The text of a token; indentation markers have none of their own.
pub open spec fn token_text(t: TokenView) -> Seq<char> {
    match t {
        TokenView::Op(op) => op.symbol_spec(),
        TokenView::Indent => Seq::empty(),
        TokenView::Dedent => Seq::empty(),
        TokenView::StringLiteral(s) => seq!['"'] + quoted_text(s, 0) + seq!['"'],
        TokenView::Number(s) => s,
        TokenView::Identifier(s) => word_text(s, 0),
    }
}

fn append_word(out: &mut String, w: &String)
    ensures
        final(out)@ == old(out)@ + word_text(w@, 0),
{
    let chars = crate::chars::to_chars(w.as_str());
    let n = chars.len();
    let mut i: usize = 0;
    let ghost start = out@;
    while i < n
        invariant
            i <= n,
            n == chars@.len(),
            chars@ == w@,
            start == old(out)@,
            out@ + word_text(w@, i as int) == start + word_text(w@, 0),
        decreases n - i,
    {
        let c = chars[i];
        let bare = c == '_' || (if i == 0 {
            is_alphabetic(c)
        } else {
            is_alphanumeric(c)
        });
        let ghost before = out@;
        if !bare {
            push_char(out, '\\');
        }
        push_char(out, c);
        assert(out@ + word_text(w@, i + 1) =~= before + word_text(w@, i as int));
        i = i + 1;
    }
    assert(out@ + word_text(w@, i as int) =~= out@);
}

fn append_quoted(out: &mut String, s: &String)
    ensures
        final(out)@ == old(out)@ + quoted_text(s@, 0),
{
    let chars = crate::chars::to_chars(s.as_str());
    let n = chars.len();
    let mut i: usize = 0;
    let ghost start = out@;
    while i < n
        invariant
            i <= n,
            n == chars@.len(),
            chars@ == s@,
            start == old(out)@,
            out@ + quoted_text(s@, i as int) == start + quoted_text(s@, 0),
        decreases n - i,
    {
        let c = chars[i];
        let ghost before = out@;
        if c == '"' || c == '\\' {
            push_char(out, '\\');
        }
        push_char(out, c);
        assert(out@ + quoted_text(s@, i + 1) =~= before + quoted_text(s@, i as int));
        i = i + 1;
    }
    assert(out@ + quoted_text(s@, i as int) =~= out@);
}

/// Appends the text of `t` to `out`.
fn append_token(out: &mut String, t: &Token)
    ensures
        final(out)@ == old(out)@ + token_text(t@),
{
    match t {
        Token::Op(op) => out.append(op.symbol()),
        Token::Indent => {
            assert(old(out)@ + Seq::<char>::empty() =~= old(out)@);
        },
        Token::Dedent => {
            assert(old(out)@ + Seq::<char>::empty() =~= old(out)@);
        },
        Token::StringLiteral(s) => {
            push_char(out, '"');
            append_quoted(out, s);
            push_char(out, '"');
            assert(final(out)@ =~= old(out)@ + token_text(t@));
        },
        Token::Number(s) => out.append(s.as_str()),
        Token::Identifier(s) => append_word(out, s),
    }
}

impl Token {
    /// The token as text, escaped so that the scanner reads it back.
    pub fn text(&self) -> (r: String)
        ensures
            r@ == token_text(self@),
    {
        let mut out = String::new();
        append_token(&mut out, self);
        assert(out@ =~= token_text(self@));
        out
    }
}

pub open spec fn tabs(n: nat) -> Seq<char> {
    Seq::new(n, |k: int| '\t')
}

/// The text of the tokens from position `i` on, at indentation `depth`;
/// `fresh` says whether a line has just begun. Tokens of a line are
/// separated by one space, lines by a line feed, and each line that holds
/// a token begins with a tab for each open level.
pub open spec fn render_from(ts: Seq<TokenView>, i: int, depth: nat, fresh: bool) -> Seq<char>
    decreases ts.len() - i,
{
    if i < 0 || i >= ts.len() {
        seq!['\n']
    } else {
        let t = ts[i];
        if t == TokenView::Indent {
            render_from(ts, i + 1, depth + 1, fresh)
        } else if t == TokenView::Dedent {
            render_from(ts, i + 1, if depth > 0 {
                (depth - 1) as nat
            } else {
                0
            }, fresh)
        } else if t == TokenView::Op(Operator::NewLine) {
            seq!['\n'] + render_from(ts, i + 1, depth, true)
        } else {
            (if fresh {
                tabs(depth)
            } else {
                seq![' ']
            }) + token_text(t) + render_from(ts, i + 1, depth, false)
        }
    }
}

/// A token stream as text.
pub open spec fn render(ts: Seq<TokenView>) -> Seq<char> {
    render_from(ts, 0, 0, true)
}

/// Writes a token stream as text: the tokens of a line separated by one
/// space, a tab for each open level at the start of a line, and a line
/// feed after each line.
pub fn render_tokens(tokens: &Vec<Token>) -> (r: String)
    ensures
        r@ == render(tokens_view(tokens@)),
{
    let mut out = String::new();
    let mut depth: usize = 0;
    let mut fresh = true;
    let mut i: usize = 0;
    let ghost ts = tokens_view(tokens@);
    while i < tokens.len()
        invariant
            i <= tokens@.len(),
            ts == tokens_view(tokens@),
            depth <= i,
            out@ + render_from(ts, i as int, depth as nat, fresh) == render(ts),
        decreases tokens@.len() - i,
    {
        let ghost before = out@;
        let t = &tokens[i];
        match t {
            Token::Indent => {
                depth = depth + 1;
            },
            Token::Dedent => {
                if depth > 0 {
                    depth = depth - 1;
                }
            },
            Token::Op(Operator::NewLine) => {
                let ghost was_fresh = fresh;
                push_char(&mut out, '\n');
                fresh = true;
                assert(out@ + render_from(ts, i + 1, depth as nat, fresh) =~= before
                    + render_from(ts, i as int, depth as nat, was_fresh));
            },
            _ => {
                let ghost was_fresh = fresh;
                if fresh {
                    let mut k: usize = 0;
                    while k < depth
                        invariant
                            k <= depth,
                            out@ == before + tabs(k as nat),
                        decreases depth - k,
                    {
                        push_char(&mut out, '\t');
                        assert(tabs((k + 1) as nat) =~= tabs(k as nat).push('\t'));
                        k = k + 1;
                    }
                } else {
                    push_char(&mut out, ' ');
                }
                append_token(&mut out, t);
                fresh = false;
                assert(out@ + render_from(ts, i + 1, depth as nat, fresh) =~= before
                    + render_from(ts, i as int, depth as nat, was_fresh));
            },
        }
        i = i + 1;
    }
    push_char(&mut out, '\n');
    assert(out@ =~= render(ts));
    out
}

/// The decimal digit of `d`, which is below ten.
pub open spec fn digit_char(d: nat) -> char {
    if d == 0 {
        '0'
    } else if d == 1 {
        '1'
    } else if d == 2 {
        '2'
    } else if d == 3 {
        '3'
    } else if d == 4 {
        '4'
    } else if d == 5 {
        '5'
    } else if d == 6 {
        '6'
    } else if d == 7 {
        '7'
    } else if d == 8 {
        '8'
    } else {
        '9'
    }
}

/// The decimal numeral of `n`.
pub open spec fn decimal(n: nat) -> Seq<char>
    decreases n,
{
    if n < 10 {
        seq![digit_char(n)]
    } else {
        decimal(n / 10).push(digit_char(n % 10))
    }
}

fn digit_of(d: u16) -> (r: char)
    requires
        d < 10,
    ensures
        r == digit_char(d as nat),
{
    match d {
        0 => '0',
        1 => '1',
        2 => '2',
        3 => '3',
        4 => '4',
        5 => '5',
        6 => '6',
        7 => '7',
        8 => '8',
        _ => '9',
    }
}

fn push_decimal(out: &mut String, n: u16)
    ensures
        final(out)@ == old(out)@ + decimal(n as nat),
    decreases n,
{
    if n >= 10 {
        push_decimal(out, n / 10);
    }
    push_char(out, digit_of(n % 10));
    assert(final(out)@ =~= old(out)@ + decimal(n as nat));
}

/// The text of an expression, as a line writes it.
pub open spec fn expr_text(e: ExprView) -> Seq<char> {
    match e {
        ExprView::Attribute { key, val } => key + seq!['=', '"'] + quoted_text(val, 0) + seq!['"'],
        ExprView::Trait { src, arg, trait_name } => match arg {
            Some(a) => seq!['$'] + src + seq!['<'] + a + seq!['>', '.'] + trait_name,
            None => src + seq!['.'] + trait_name,
        },
        ExprView::Int(n) => decimal(n as nat),
        ExprView::Colon => seq![':'],
        ExprView::Arithmetic(a) => a.symbol_spec(),
        ExprView::Relational(r) => r.symbol_spec(),
        ExprView::Raw(s) => s,
    }
}

fn append_expr(out: &mut String, e: &Expr)
    ensures
        final(out)@ == old(out)@ + expr_text(e@),
{
    match e {
        Expr::Attribute { key, val } => {
            out.append(key.as_str());
            push_char(out, '=');
            push_char(out, '"');
            append_quoted(out, val);
            push_char(out, '"');
        },
        Expr::Trait { src, arg, trait_name } => {
            match arg {
                Some(a) => {
                    push_char(out, '$');
                    out.append(src.as_str());
                    push_char(out, '<');
                    out.append(a.as_str());
                    push_char(out, '>');
                },
                None => {
                    out.append(src.as_str());
                },
            }
            push_char(out, '.');
            out.append(trait_name.as_str());
        },
        Expr::Int(n) => push_decimal(out, *n),
        Expr::Colon => push_char(out, ':'),
        Expr::Arithmetic(a) => out.append(a.symbol()),
        Expr::Relational(r) => out.append(r.symbol()),
        Expr::Raw(s) => out.append(s.as_str()),
    }
    assert(final(out)@ =~= old(out)@ + expr_text(e@));
}

impl Expr {
    /// The expression as text, as a line writes it.
    pub fn text(&self) -> (r: String)
        ensures
            r@ == expr_text(self@),
    {
        let mut out = String::new();
        append_expr(&mut out, self);
        assert(out@ =~= expr_text(self@));
        out
    }
}

/// Texts joined by single spaces.
pub open spec fn joined(texts: Seq<Seq<char>>) -> Seq<char>
    decreases texts.len(),
{
    if texts.len() == 0 {
        Seq::empty()
    } else if texts.len() == 1 {
        texts[0]
    } else {
        joined(texts.drop_last()) + seq![' '] + texts.last()
    }
}

pub open spec fn spaces(n: nat) -> Seq<char> {
    Seq::new(n, |k: int| ' ')
}

/// A line of expressions as text: a space for each leading whitespace
/// character, then the members separated by single spaces.
pub open spec fn expr_line_text(leading: nat, members: Seq<ExprView>) -> Seq<char> {
    spaces(leading) + joined(members.map_values(|e: ExprView| expr_text(e)))
}

impl Line<Expr> {
    /// The line as text.
    pub fn text(&self) -> (r: String)
        ensures
            r@ == expr_line_text(self.leading_whitespace as nat, exprs_view(self.members@)),
    {
        let mut out = String::new();
        let mut k: usize = 0;
        while k < self.leading_whitespace
            invariant
                k <= self.leading_whitespace,
                out@ == spaces(k as nat),
            decreases self.leading_whitespace - k,
        {
            push_char(&mut out, ' ');
            assert(spaces((k + 1) as nat) =~= spaces(k as nat).push(' '));
            k = k + 1;
        }
        let ghost lead = out@;
        let ghost texts = exprs_view(self.members@).map_values(|e: ExprView| expr_text(e));
        let mut i: usize = 0;
        assert(texts.take(0) =~= Seq::<Seq<char>>::empty());
        while i < self.members.len()
            invariant
                i <= self.members@.len(),
                lead == spaces(self.leading_whitespace as nat),
                texts == exprs_view(self.members@).map_values(|e: ExprView| expr_text(e)),
                out@ == lead + joined(texts.take(i as int)),
            decreases self.members@.len() - i,
        {
            let ghost before = out@;
            if i > 0 {
                push_char(&mut out, ' ');
            }
            append_expr(&mut out, &self.members[i]);
            assert(texts.take(i + 1).drop_last() =~= texts.take(i as int));
            assert(out@ =~= lead + joined(texts.take(i + 1)));
            i = i + 1;
        }
        assert(texts.take(i as int) =~= texts);
        out
    }
}

/// A line of tokens as text: a space for each leading whitespace
/// character, then the tokens separated by single spaces.
pub open spec fn token_line_text(leading: nat, members: Seq<TokenView>) -> Seq<char> {
    spaces(leading) + joined(members.map_values(|t: TokenView| token_text(t)))
}

impl Line<Token> {
    /// The line as text.
    pub fn text(&self) -> (r: String)
        ensures
            r@ == token_line_text(self.leading_whitespace as nat, tokens_view(self.members@)),
    {
        let mut out = String::new();
        let mut k: usize = 0;
        while k < self.leading_whitespace
            invariant
                k <= self.leading_whitespace,
                out@ == spaces(k as nat),
            decreases self.leading_whitespace - k,
        {
            push_char(&mut out, ' ');
            assert(spaces((k + 1) as nat) =~= spaces(k as nat).push(' '));
            k = k + 1;
        }
        let ghost lead = out@;
        let ghost texts = tokens_view(self.members@).map_values(|t: TokenView| token_text(t));
        let mut i: usize = 0;
        assert(texts.take(0) =~= Seq::<Seq<char>>::empty());
        while i < self.members.len()
            invariant
                i <= self.members@.len(),
                lead == spaces(self.leading_whitespace as nat),
                texts == tokens_view(self.members@).map_values(|t: TokenView| token_text(t)),
                out@ == lead + joined(texts.take(i as int)),
            decreases self.members@.len() - i,
        {
            if i > 0 {
                push_char(&mut out, ' ');
            }
            append_token(&mut out, &self.members[i]);
            assert(texts.take(i + 1).drop_last() =~= texts.take(i as int));
            assert(out@ =~= lead + joined(texts.take(i + 1)));
            i = i + 1;
        }
        assert(texts.take(i as int) =~= texts);
        out
    }
}

} // verus!
