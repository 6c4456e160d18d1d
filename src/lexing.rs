//! The scanner: from the characters of a whole text to a token stream with
//! `Indent` and `Dedent` markers.
use vstd::prelude::*;

use crate::chars::{
    alphabetic, alphanumeric, is_alphabetic, is_alphanumeric, is_whitespace, push_char, white_space,
};
use crate::token::{
    dangling_escape, lemma_tokens_view_push, tokens_view, Operator, Token, TokenError,
    TokenErrorView, TokenView, CHAR_AFTER_BACKSLASH,
};

verus! {

/// The kinds of character run that the scanner collects into a buffer.
#[derive(Clone, Copy, Debug, PartialEq, Eq, Structural)]
pub enum CharRun {
    /// ASCII decimal digits.
    Digits,
    /// Underscores and alphanumerics; a backslash escapes the next character.
    Word,
    /// Anything but the closing quote; a backslash escapes the next character.
    Quoted(char),
}

pub open spec fn is_digit(c: char) -> bool {
    '0' <= c <= '9'
}

/// Whether a run of kind `run` takes `c` (or, for a backslash, the escape it starts).
pub open spec fn run_accepts(run: CharRun, c: char) -> bool {
    match run {
        CharRun::Digits => is_digit(c),
        CharRun::Word => c == '\\' || c == '_' || alphanumeric(c),
        CharRun::Quoted(q) => c != q,
    }
}

fn accepts(run: CharRun, c: char) -> (r: bool)
    ensures
        r == run_accepts(run, c),
{
    match run {
        CharRun::Digits => '0' <= c && c <= '9',
        CharRun::Word => c == '\\' || c == '_' || is_alphanumeric(c),
        CharRun::Quoted(q) => c != q,
    }
}

/// Collects the run of kind `run` that starts at `i` onto `buf`, decoding
/// escapes; gives the collected text and the first position after the run.
pub open spec fn read_run(s: Seq<char>, i: int, run: CharRun, buf: Seq<char>) -> Result<
    (Seq<char>, int),
    TokenErrorView,
>
    decreases s.len() - i,
{
    if 0 <= i < s.len() && run_accepts(run, s[i]) {
        if s[i] == '\\' {
            if i + 1 < s.len() {
                read_run(s, i + 2, run, buf.push(s[i + 1]))
            } else {
                Err(dangling_escape())
            }
        } else {
            read_run(s, i + 1, run, buf.push(s[i]))
        }
    } else {
        Ok((buf, i))
    }
}

pub proof fn lemma_read_run_bounds(s: Seq<char>, i: int, run: CharRun, buf: Seq<char>)
    requires
        0 <= i <= s.len(),
    ensures
        read_run(s, i, run, buf) matches Ok((b, j)) ==> i <= j <= s.len() && (i < s.len()
            && run_accepts(run, s[i]) ==> i < j),
    decreases s.len() - i,
{
    if 0 <= i < s.len() && run_accepts(run, s[i]) {
        if s[i] == '\\' {
            if i + 1 < s.len() {
                lemma_read_run_bounds(s, i + 2, run, buf.push(s[i + 1]));
            }
        } else {
            lemma_read_run_bounds(s, i + 1, run, buf.push(s[i]));
        }
    }
}

/// Appends to `buf` the characters of `chars` from `*pos` on, as long as
/// they belong to a run of kind `run`, decoding escapes; leaves `*pos` on
/// the first character after the run.
pub fn predicated_char_writes(buf: String, chars: &Vec<char>, pos: &mut usize, run: CharRun) -> (r:
    Result<String, TokenError>)
    requires
        *old(pos) <= chars@.len(),
    ensures
        match read_run(chars@, *old(pos) as int, run, buf@) {
            Ok((b, j)) => r is Ok && r->Ok_0@ == b && *final(pos) == j,
            Err(e) => r is Err && r->Err_0@ == e,
        },
{
    let mut out = buf;
    let ghost start = *pos;
    let ghost first = out@;
    while *pos < chars.len() && accepts(run, chars[*pos as usize])
        invariant
            start == *old(pos),
            first == buf@,
            *pos <= chars@.len(),
            read_run(chars@, *pos as int, run, out@) == read_run(chars@, start as int, run, first),
        decreases chars@.len() - *pos,
    {
        let c = chars[*pos];
        if c == '\\' {
            if *pos + 1 < chars.len() {
                push_char(&mut out, chars[*pos + 1]);
                *pos = *pos + 2;
            } else {
                return Err(TokenError::UnexpectedEndOfLine(CHAR_AFTER_BACKSLASH));
            }
        } else {
            push_char(&mut out, c);
            *pos = *pos + 1;
        }
    }
    Ok(out)
}


/// The first position at or after `i` that holds a line feed, or the end.
pub open spec fn comment_end(s: Seq<char>, i: int) -> int
    decreases s.len() - i,
{
    if 0 <= i < s.len() && s[i] != '\n' {
        comment_end(s, i + 1)
    } else {
        i
    }
}

/// The first position at or after `i` that is not whitespace other than a
/// line feed.
pub open spec fn indent_end(s: Seq<char>, i: int) -> int
    decreases s.len() - i,
{
    if 0 <= i < s.len() && s[i] != '\n' && white_space(s[i]) {
        indent_end(s, i + 1)
    } else {
        i
    }
}

pub proof fn lemma_comment_end_bounds(s: Seq<char>, i: int)
    requires
        0 <= i <= s.len(),
    ensures
        i <= comment_end(s, i) <= s.len(),
    decreases s.len() - i,
{
    if i < s.len() && s[i] != '\n' {
        lemma_comment_end_bounds(s, i + 1);
    }
}

pub proof fn lemma_indent_end_bounds(s: Seq<char>, i: int)
    requires
        0 <= i <= s.len(),
    ensures
        i <= indent_end(s, i) <= s.len(),
        forall|k: int| i <= k < indent_end(s, i) ==> s[k] != '\n' && white_space(#[trigger] s[k]),
        indent_end(s, i) < s.len() ==> s[indent_end(s, i)] == '\n' || !white_space(
            s[indent_end(s, i)],
        ),
    decreases s.len() - i,
{
    if i < s.len() && s[i] != '\n' && white_space(s[i]) {
        lemma_indent_end_bounds(s, i + 1);
    }
}

/// The operator that a character always stands for on its own.
pub open spec fn single_operator(c: char) -> Option<Operator> {
    if c == '$' {
        Some(Operator::Dollar)
    } else if c == ':' {
        Some(Operator::Colon)
    } else if c == '.' {
        Some(Operator::Period)
    } else if c == '(' {
        Some(Operator::LeftBracket)
    } else if c == ')' {
        Some(Operator::RightBracket)
    } else if c == '/' {
        Some(Operator::Slash)
    } else if c == '*' {
        Some(Operator::Asterisk)
    } else if c == '-' {
        Some(Operator::Minus)
    } else if c == '+' {
        Some(Operator::Plus)
    } else if c == '%' {
        Some(Operator::Mod)
    } else {
        None
    }
}

fn single_operator_of(c: char) -> (r: Option<Operator>)
    ensures
        r == single_operator(c),
{
    match c {
        '$' => Some(Operator::Dollar),
        ':' => Some(Operator::Colon),
        '.' => Some(Operator::Period),
        '(' => Some(Operator::LeftBracket),
        ')' => Some(Operator::RightBracket),
        '/' => Some(Operator::Slash),
        '*' => Some(Operator::Asterisk),
        '-' => Some(Operator::Minus),
        '+' => Some(Operator::Plus),
        '%' => Some(Operator::Mod),
        _ => None,
    }
}

/// For a character that may combine with a following `=`: the operator it
/// stands for alone, and the one it forms with the `=`.
pub open spec fn composite_base(c: char) -> Option<(Operator, Operator)> {
    if c == '=' {
        Some((Operator::EqualsSign, Operator::EqualTo))
    } else if c == '<' {
        Some((Operator::LeftAngle, Operator::LessThanEqual))
    } else if c == '>' {
        Some((Operator::RightAngle, Operator::GreaterThanEqual))
    } else if c == '!' {
        Some((Operator::Bang, Operator::NotEqual))
    } else {
        None
    }
}

pub(crate) fn composite_base_of(c: char) -> (r: Option<(Operator, Operator)>)
    ensures
        r == composite_base(c),
{
    match c {
        '=' => Some((Operator::EqualsSign, Operator::EqualTo)),
        '<' => Some((Operator::LeftAngle, Operator::LessThanEqual)),
        '>' => Some((Operator::RightAngle, Operator::GreaterThanEqual)),
        '!' => Some((Operator::Bang, Operator::NotEqual)),
        _ => None,
    }
}

/// The operator at `i`, where `c = s[i]` may combine with a following `=`.
pub open spec fn composite_at(s: Seq<char>, i: int, lone: Operator, joined: Operator) -> (
    TokenView,
    int,
) {
    if i + 1 < s.len() && s[i + 1] == '=' {
        (TokenView::Op(joined), i + 2)
    } else {
        (TokenView::Op(lone), i + 1)
    }
}

/// One step of the scanner on the character at `i`, which is not a line
/// feed: the token it yields, if any, and the position after it.
pub open spec fn char_step(s: Seq<char>, i: int) -> Result<(Option<TokenView>, int), TokenErrorView> {
    let c = s[i];
    if c == '#' {
        Ok((None, comment_end(s, i + 1)))
    } else if single_operator(c) is Some {
        Ok((Some(TokenView::Op(single_operator(c)->0)), i + 1))
    } else if composite_base(c) is Some {
        let (lone, joined) = composite_base(c)->0;
        let (t, j) = composite_at(s, i, lone, joined);
        Ok((Some(t), j))
    } else if c == '\'' || c == '"' {
        match read_run(s, i + 1, CharRun::Quoted(c), Seq::empty()) {
            Ok((b, j)) => if j < s.len() {
                Ok((Some(TokenView::StringLiteral(b)), j + 1))
            } else {
                Err(TokenErrorView::UnterminatedStringLiteral(b))
            },
            Err(e) => Err(e),
        }
    } else if white_space(c) {
        Ok((None, i + 1))
    } else if is_digit(c) {
        match read_run(s, i, CharRun::Digits, Seq::empty()) {
            Ok((b, j)) => if j < s.len() && s[j] == '.' {
                match read_run(s, j + 1, CharRun::Digits, b.push('.')) {
                    Ok((b2, k)) => Ok((Some(TokenView::Number(b2)), k)),
                    Err(e) => Err(e),
                }
            } else {
                Ok((Some(TokenView::Number(b)), j))
            },
            Err(e) => Err(e),
        }
    } else if c == '_' || alphabetic(c) {
        match read_run(s, i + 1, CharRun::Word, seq![c]) {
            Ok((b, j)) => Ok((Some(TokenView::Identifier(b)), j)),
            Err(e) => Err(e),
        }
    } else if c == '\\' {
        match read_run(s, i, CharRun::Word, Seq::empty()) {
            Ok((b, j)) => Ok((Some(TokenView::Identifier(b)), j)),
            Err(e) => Err(e),
        }
    } else {
        Err(TokenErrorView::InvalidCharacter(c))
    }
}

pub proof fn lemma_char_step_advances(s: Seq<char>, i: int)
    requires
        0 <= i < s.len(),
    ensures
        char_step(s, i) matches Ok((t, j)) ==> i < j <= s.len(),
{
    let c = s[i];
    lemma_comment_end_bounds(s, i + 1);
    lemma_read_run_bounds(s, i + 1, CharRun::Quoted(c), Seq::empty());
    lemma_read_run_bounds(s, i, CharRun::Digits, Seq::empty());
    lemma_read_run_bounds(s, i, CharRun::Word, Seq::empty());
    lemma_read_run_bounds(s, i + 1, CharRun::Word, seq![c]);
    if let Ok((b, j)) = read_run(s, i, CharRun::Digits, Seq::empty()) {
        if j < s.len() {
            lemma_read_run_bounds(s, j + 1, CharRun::Digits, b.push('.'));
        }
    }
}

/// The state of indentation: the depth in steps, the character that
/// indents, and the width of one step (zero until the first indented line).
pub struct IndentView {
    pub depth: nat,
    pub ch: char,
    pub step: nat,
}

pub open spec fn initial_indent() -> IndentView {
    IndentView { depth: 0, ch: '_', step: 0 }
}

pub open spec fn repeated(t: TokenView, n: nat) -> Seq<TokenView> {
    Seq::new(n, |k: int| t)
}

/// What a line whose leading whitespace is `w` does to the indentation:
/// the new state and the `Indent` or `Dedent` tokens it yields.
pub open spec fn indent_step(st: IndentView, w: Seq<char>) -> Result<
    (IndentView, Seq<TokenView>),
    TokenErrorView,
> {
    if w.len() == 0 {
        Ok((IndentView { depth: 0, ..st }, repeated(TokenView::Dedent, st.depth)))
    } else {
        let ch = if st.step == 0 {
            w[0]
        } else {
            st.ch
        };
        let step = if st.step == 0 {
            w.len()
        } else {
            st.step
        };
        if exists|k: int| 0 <= k < w.len() && w[k] != ch {
            Err(TokenErrorView::InconsistentWhitespace)
        } else if w.len() % step != 0 {
            Err(TokenErrorView::InconsistentWhitespaceCount)
        } else {
            let d = w.len() / step;
            let toks = if d >= st.depth {
                repeated(TokenView::Indent, (d - st.depth) as nat)
            } else {
                repeated(TokenView::Dedent, (st.depth - d) as nat)
            };
            Ok((IndentView { depth: d, ch, step }, toks))
        }
    }
}

/// The work done after a line feed (or at the start of the text): `i` is
/// the position after it. A `NewLine` token separates lines once a token
/// has been seen; a line that holds no token leaves the indentation alone.
pub open spec fn newline_step(s: Seq<char>, i: int, st: IndentView, toks: Seq<TokenView>) -> Result<
    (IndentView, Seq<TokenView>, int),
    TokenErrorView,
> {
    let toks = if toks.len() > 0 {
        toks.push(TokenView::Op(Operator::NewLine))
    } else {
        toks
    };
    let j = indent_end(s, i);
    if j >= s.len() || s[j] == '#' || s[j] == '\n' {
        Ok((st, toks, j))
    } else {
        match indent_step(st, s.subrange(i, j)) {
            Ok((st2, extra)) => Ok((st2, toks + extra, j)),
            Err(e) => Err(e),
        }
    }
}

pub proof fn lemma_newline_step_advances(s: Seq<char>, i: int, st: IndentView, toks: Seq<TokenView>)
    requires
        0 <= i <= s.len(),
    ensures
        newline_step(s, i, st, toks) matches Ok((a, b, j)) ==> i <= j <= s.len(),
{
    lemma_indent_end_bounds(s, i);
}

/// The scanner from position `i` on, with indentation state `st` and the
/// tokens `toks` found so far; at the end every open level is closed.
/// Each step moves forward (`lemma_char_step_advances`,
/// `lemma_newline_step_advances`); the guards on the positions only make
/// that evident to Verus.
pub open spec fn scan_from(s: Seq<char>, i: int, st: IndentView, toks: Seq<TokenView>) -> Result<
    Seq<TokenView>,
    TokenErrorView,
>
    decreases s.len() - i,
{
    if i < 0 || i >= s.len() {
        Ok(toks + repeated(TokenView::Dedent, st.depth))
    } else if s[i] == '\n' {
        match newline_step(s, i + 1, st, toks) {
            Ok((st2, toks2, j)) => if i < j <= s.len() {
                scan_from(s, j, st2, toks2)
            } else {
                Ok(toks2)
            },
            Err(e) => Err(e),
        }
    } else {
        match char_step(s, i) {
            Ok((t, j)) => if i < j <= s.len() {
                scan_from(s, j, st, with_token(toks, t))
            } else {
                Ok(toks)
            },
            Err(e) => Err(e),
        }
    }
}

pub open spec fn with_token(toks: Seq<TokenView>, t: Option<TokenView>) -> Seq<TokenView> {
    match t {
        Some(t) => toks.push(t),
        None => toks,
    }
}

/// The token stream of `s`, which has no trailing whitespace: the text is
/// read as if a line feed came before it.
pub open spec fn scan_chars(s: Seq<char>) -> Result<Seq<TokenView>, TokenErrorView> {
    match newline_step(s, 0, initial_indent(), Seq::empty()) {
        Ok((st, toks, j)) => scan_from(s, j, st, toks),
        Err(e) => Err(e),
    }
}

/// The token stream of a text: its trailing whitespace is dropped first.
pub open spec fn scan(text: Seq<char>) -> Result<Seq<TokenView>, TokenErrorView> {
    scan_chars(crate::chars::trim_end(text))
}

/// The view of the result of a scan.
pub open spec fn scan_result_view(r: Result<Vec<Token>, TokenError>) -> Result<
    Seq<TokenView>,
    TokenErrorView,
> {
    match r {
        Ok(v) => Ok(tokens_view(v@)),
        Err(e) => Err(e@),
    }
}

pub open spec fn optional_token_view(t: Option<Token>) -> Option<TokenView> {
    match t {
        Some(t) => Some(t@),
        None => None,
    }
}

/// Scans the token, if any, that starts with the character at `*pos`,
/// which is not a line feed, and moves `*pos` past it.
fn parse_char(chars: &Vec<char>, pos: &mut usize) -> (r: Result<Option<Token>, TokenError>)
    requires
        *old(pos) < chars@.len(),
        chars@[*old(pos) as int] != '\n',
    ensures
        match char_step(chars@, *old(pos) as int) {
            Ok((t, j)) => r is Ok && optional_token_view(r->Ok_0) == t && *final(pos) == j,
            Err(e) => r is Err && r->Err_0@ == e,
        },
{
    let n = chars.len();
    let i = *pos;
    let c = chars[i];
    if c == '#' {
        // a comment runs up to the next line feed
        let mut k = i + 1;
        while k < n && chars[k] != '\n'
            invariant
                n == chars@.len(),
                i + 1 <= k <= chars@.len(),
                comment_end(chars@, k as int) == comment_end(chars@, i + 1),
            decreases chars@.len() - k,
        {
            k = k + 1;
        }
        *pos = k;
        return Ok(None);
    }
    if let Some(op) = single_operator_of(c) {
        *pos = i + 1;
        return Ok(Some(Token::Op(op)));
    }
    if let Some((lone, joined)) = composite_base_of(c) {
        if i + 1 < n && chars[i + 1] == '=' {
            *pos = i + 2;
            return Ok(Some(Token::Op(joined)));
        }
        *pos = i + 1;
        return Ok(Some(Token::Op(lone)));
    }
    if c == '\'' || c == '"' {
        *pos = i + 1;
        let buf = match predicated_char_writes(String::new(), chars, pos, CharRun::Quoted(c)) {
            Ok(b) => b,
            Err(e) => return Err(e),
        };
        if *pos < n {
            *pos = *pos + 1;
            return Ok(Some(Token::StringLiteral(buf)));
        }
        return Err(TokenError::UnterminatedStringLiteral(buf));
    }
    if is_whitespace(c) {
        *pos = i + 1;
        return Ok(None);
    }
    if '0' <= c && c <= '9' {
        let mut buf = match predicated_char_writes(String::new(), chars, pos, CharRun::Digits) {
            Ok(b) => b,
            Err(e) => return Err(e),
        };
        if *pos < n && chars[*pos] == '.' {
            push_char(&mut buf, '.');
            *pos = *pos + 1;
            buf = match predicated_char_writes(buf, chars, pos, CharRun::Digits) {
                Ok(b) => b,
                Err(e) => return Err(e),
            };
        }
        return Ok(Some(Token::Number(buf)));
    }
    if c == '_' || is_alphabetic(c) {
        let mut first = String::new();
        push_char(&mut first, c);
        assert(first@ =~= seq![c]);
        *pos = i + 1;
        let buf = match predicated_char_writes(first, chars, pos, CharRun::Word) {
            Ok(b) => b,
            Err(e) => return Err(e),
        };
        return Ok(Some(Token::Identifier(buf)));
    }
    if c == '\\' {
        let buf = match predicated_char_writes(String::new(), chars, pos, CharRun::Word) {
            Ok(b) => b,
            Err(e) => return Err(e),
        };
        return Ok(Some(Token::Identifier(buf)));
    }
    Err(TokenError::InvalidCharacter(c))
}

/// The scanner's indentation state; a `step` of zero means that no line
/// has been indented yet.
struct IndentState {
    depth: usize,
    ch: char,
    step: usize,
}

impl View for IndentState {
    type V = IndentView;

    closed spec fn view(&self) -> IndentView {
        IndentView { depth: self.depth as nat, ch: self.ch, step: self.step as nat }
    }
}

/// Pushes `n` markers: `Indent` where `opening`, else `Dedent`.
fn push_levels(tokens: &mut Vec<Token>, n: usize, opening: bool)
    ensures
        tokens_view(final(tokens)@) == tokens_view(old(tokens)@) + repeated(
            if opening {
                TokenView::Indent
            } else {
                TokenView::Dedent
            },
            n as nat,
        ),
{
    let ghost first = tokens_view(tokens@);
    let ghost marker = if opening {
        TokenView::Indent
    } else {
        TokenView::Dedent
    };
    let mut k: usize = 0;
    assert(first + repeated(marker, 0) =~= first);
    while k < n
        invariant
            k <= n,
            first == tokens_view(old(tokens)@),
            marker == (if opening {
                TokenView::Indent
            } else {
                TokenView::Dedent
            }),
            tokens_view(tokens@) == first + repeated(marker, k as nat),
        decreases n - k,
    {
        let ghost before = tokens@;
        let t = if opening {
            Token::Indent
        } else {
            Token::Dedent
        };
        tokens.push(t);
        proof {
            lemma_tokens_view_push(before, t);
            assert(first + repeated(marker, (k + 1) as nat) =~= (first + repeated(
                marker,
                k as nat,
            )).push(marker));
        }
        k = k + 1;
    }
}

/// Whether every character of `chars` from `from` up to `to` is `ch`.
fn all_equal(chars: &Vec<char>, from: usize, to: usize, ch: char) -> (r: bool)
    requires
        from <= to <= chars@.len(),
    ensures
        r == forall|m: int| from <= m < to ==> chars@[m] == ch,
{
    let mut k = from;
    while k < to
        invariant
            from <= k <= to <= chars@.len(),
            forall|m: int| from <= m < k ==> chars@[m] == ch,
        decreases to - k,
    {
        if chars[k] != ch {
            return false;
        }
        k = k + 1;
    }
    true
}

/// Handles the start of a line: `*pos` is the position after a line feed,
/// or zero. Skips the leading whitespace and updates the indentation.
fn parse_newline(
    indent: &mut IndentState,
    chars: &Vec<char>,
    pos: &mut usize,
    tokens: &mut Vec<Token>,
) -> (r: Result<(), TokenError>)
    requires
        *old(pos) <= chars@.len(),
    ensures
        match newline_step(chars@, *old(pos) as int, old(indent)@, tokens_view(old(tokens)@)) {
            Ok((st, ts, j)) => r is Ok && final(indent)@ == st && tokens_view(final(tokens)@) == ts
                && *final(pos) == j,
            Err(e) => r is Err && r->Err_0@ == e,
        },
{
    if tokens.len() != 0 {
        let ghost before = tokens@;
        let t = Token::Op(Operator::NewLine);
        tokens.push(t);
        proof {
            lemma_tokens_view_push(before, t);
        }
    }
    let n = chars.len();
    let start = *pos;
    let mut j = start;
    while j < n && chars[j] != '\n' && is_whitespace(chars[j])
        invariant
            n == chars@.len(),
            start <= j <= chars@.len(),
            indent_end(chars@, j as int) == indent_end(chars@, start as int),
        decreases chars@.len() - j,
    {
        j = j + 1;
    }
    *pos = j;
    if j >= n || chars[j] == '#' || chars[j] == '\n' {
        return Ok(());
    }
    let ghost w = chars@.subrange(start as int, j as int);
    let width = j - start;
    if width == 0 {
        push_levels(tokens, indent.depth, false);
        indent.depth = 0;
        return Ok(());
    }
    let ch = if indent.step == 0 {
        chars[start]
    } else {
        indent.ch
    };
    let step = if indent.step == 0 {
        width
    } else {
        indent.step
    };
    if !all_equal(chars, start, j, ch) {
        assert(exists|m: int| 0 <= m < w.len() && w[m] != ch) by {
            let m = choose|m: int| start <= m < j && chars@[m] != ch;
            assert(w[m - start] != ch);
        }
        return Err(TokenError::InconsistentWhitespace);
    }
    assert(forall|m: int| 0 <= m < w.len() ==> w[m] == ch) by {
        assert(forall|m: int| 0 <= m < w.len() ==> w[m] == chars@[m + start]);
    }
    if width % step != 0 {
        return Err(TokenError::InconsistentWhitespaceCount);
    }
    let d = width / step;
    if d >= indent.depth {
        push_levels(tokens, d - indent.depth, true);
    } else {
        push_levels(tokens, indent.depth - d, false);
    }
    *indent = IndentState { depth: d, ch, step };
    Ok(())
}

/// Scans `chars`, which has no trailing whitespace, into tokens.
pub fn parse_chars(chars: &Vec<char>) -> (r: Result<Vec<Token>, TokenError>)
    ensures
        scan_result_view(r) == scan_chars(chars@),
{
    let mut resp: Vec<Token> = Vec::new();
    let mut indent = IndentState { depth: 0, ch: '_', step: 0 };
    let mut pos: usize = 0;
    assert(tokens_view(resp@) =~= Seq::<TokenView>::empty());
    proof {
        lemma_newline_step_advances(chars@, 0, indent@, tokens_view(resp@));
    }
    match parse_newline(&mut indent, chars, &mut pos, &mut resp) {
        Ok(()) => {},
        Err(e) => return Err(e),
    }
    while pos < chars.len()
        invariant
            pos <= chars@.len(),
            scan_from(chars@, pos as int, indent@, tokens_view(resp@)) == scan_chars(chars@),
        decreases chars@.len() - pos,
    {
        if chars[pos] == '\n' {
            proof {
                lemma_newline_step_advances(chars@, pos + 1, indent@, tokens_view(resp@));
            }
            pos = pos + 1;
            match parse_newline(&mut indent, chars, &mut pos, &mut resp) {
                Ok(()) => {},
                Err(e) => return Err(e),
            }
        } else {
            proof {
                lemma_char_step_advances(chars@, pos as int);
            }
            let ghost before = resp@;
            match parse_char(chars, &mut pos) {
                Ok(Some(t)) => {
                    let ghost tv = t;
                    resp.push(t);
                    proof {
                        lemma_tokens_view_push(before, tv);
                    }
                },
                Ok(None) => {},
                Err(e) => return Err(e),
            }
        }
    }
    push_levels(&mut resp, indent.depth, false);
    Ok(resp)
}

/// Scans a whole text, after dropping its trailing whitespace.
pub fn parse_string(s: &str) -> (r: Result<Vec<Token>, TokenError>)
    ensures
        scan_result_view(r) == scan(s@),
{
    let chars = crate::chars::trim_end_chars(crate::chars::to_chars(s));
    parse_chars(&chars)
}

} // verus!
