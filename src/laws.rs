//! Properties of the scanner, the line tokenizer and the reducer.
use vstd::prelude::*;

use crate::chars::{alphabetic, alphanumeric, trim_end, white_space};
use crate::lexing::{
    char_step, indent_step, initial_indent, is_digit, lemma_char_step_advances,
    lemma_newline_step_advances, newline_step, read_run, repeated, scan, scan_from, with_token,
    CharRun, IndentView,
};
use crate::lines::{
    all_digits, digits_value, number_or_raw, parse_u16, reduce_step, tokenize_line_spec,
    unsigned_part,
};
use crate::render::{quoted_text, render, render_from, tabs, token_text, word_char_text, word_text};
use crate::structs::ExprView;
use crate::token::{Operator, TokenView};

verus! {

/// How many times `t` occurs in `ts`.
pub open spec fn count_of(ts: Seq<TokenView>, t: TokenView) -> nat
    decreases ts.len(),
{
    if ts.len() == 0 {
        0
    } else {
        count_of(ts.drop_last(), t) + if ts.last() == t {
            1nat
        } else {
            0nat
        }
    }
}

proof fn lemma_count_of_concat(a: Seq<TokenView>, b: Seq<TokenView>, t: TokenView)
    ensures
        count_of(a + b, t) == count_of(a, t) + count_of(b, t),
    decreases b.len(),
{
    if b.len() == 0 {
        assert(a + b =~= a);
    } else {
        assert((a + b).drop_last() =~= a + b.drop_last());
        lemma_count_of_concat(a, b.drop_last(), t);
    }
}

proof fn lemma_count_of_repeated(u: TokenView, n: nat, t: TokenView)
    ensures
        count_of(repeated(u, n), t) == if u == t {
            n
        } else {
            0
        },
    decreases n,
{
    if n > 0 {
        assert(repeated(u, n).drop_last() =~= repeated(u, (n - 1) as nat));
        lemma_count_of_repeated(u, (n - 1) as nat, t);
    }
}

proof fn lemma_count_of_push(a: Seq<TokenView>, u: TokenView, t: TokenView)
    ensures
        count_of(a.push(u), t) == count_of(a, t) + if u == t {
            1nat
        } else {
            0nat
        },
{
    assert(a.push(u).drop_last() =~= a);
}

/// Whether the open levels are those that `Indent` tokens opened and
/// `Dedent` tokens have not closed.
pub open spec fn levels_balance(st: IndentView, toks: Seq<TokenView>) -> bool {
    count_of(toks, TokenView::Indent) == count_of(toks, TokenView::Dedent) + st.depth
}

proof fn lemma_char_step_no_marker(s: Seq<char>, i: int)
    requires
        0 <= i < s.len(),
    ensures
        char_step(s, i) matches Ok((Some(t), j)) ==> t != TokenView::Indent && t != TokenView::Dedent,
{
}

proof fn lemma_newline_step_balance(s: Seq<char>, i: int, st: IndentView, toks: Seq<TokenView>)
    requires
        levels_balance(st, toks),
    ensures
        newline_step(s, i, st, toks) matches Ok((st2, toks2, j)) ==> levels_balance(st2, toks2),
{
    let toks1 = if toks.len() > 0 {
        toks.push(TokenView::Op(Operator::NewLine))
    } else {
        toks
    };
    lemma_count_of_push(toks, TokenView::Op(Operator::NewLine), TokenView::Indent);
    lemma_count_of_push(toks, TokenView::Op(Operator::NewLine), TokenView::Dedent);
    let j = crate::lexing::indent_end(s, i);
    if !(j >= s.len() || s[j] == '#' || s[j] == '\n') {
        let w = s.subrange(i, j);
        if let Ok((st2, extra)) = indent_step(st, w) {
            lemma_count_of_concat(toks1, extra, TokenView::Indent);
            lemma_count_of_concat(toks1, extra, TokenView::Dedent);
            if w.len() == 0 {
                lemma_count_of_repeated(TokenView::Dedent, st.depth, TokenView::Indent);
                lemma_count_of_repeated(TokenView::Dedent, st.depth, TokenView::Dedent);
            } else if st2.depth >= st.depth {
                lemma_count_of_repeated(
                    TokenView::Indent,
                    (st2.depth - st.depth) as nat,
                    TokenView::Indent,
                );
                lemma_count_of_repeated(
                    TokenView::Indent,
                    (st2.depth - st.depth) as nat,
                    TokenView::Dedent,
                );
            } else {
                lemma_count_of_repeated(
                    TokenView::Dedent,
                    (st.depth - st2.depth) as nat,
                    TokenView::Indent,
                );
                lemma_count_of_repeated(
                    TokenView::Dedent,
                    (st.depth - st2.depth) as nat,
                    TokenView::Dedent,
                );
            }
        }
    }
}

proof fn lemma_scan_from_balance(s: Seq<char>, i: int, st: IndentView, toks: Seq<TokenView>)
    requires
        levels_balance(st, toks),
    ensures
        scan_from(s, i, st, toks) matches Ok(ts) ==> count_of(ts, TokenView::Indent) == count_of(
            ts,
            TokenView::Dedent,
        ),
    decreases s.len() - i,
{
    if i < 0 || i >= s.len() {
        lemma_count_of_concat(toks, repeated(TokenView::Dedent, st.depth), TokenView::Indent);
        lemma_count_of_concat(toks, repeated(TokenView::Dedent, st.depth), TokenView::Dedent);
        lemma_count_of_repeated(TokenView::Dedent, st.depth, TokenView::Indent);
        lemma_count_of_repeated(TokenView::Dedent, st.depth, TokenView::Dedent);
    } else if s[i] == '\n' {
        lemma_newline_step_balance(s, i + 1, st, toks);
        lemma_newline_step_advances(s, i + 1, st, toks);
        if let Ok((st2, toks2, j)) = newline_step(s, i + 1, st, toks) {
            lemma_scan_from_balance(s, j, st2, toks2);
        }
    } else {
        lemma_char_step_no_marker(s, i);
        lemma_char_step_advances(s, i);
        if let Ok((t, j)) = char_step(s, i) {
            if let Some(u) = t {
                lemma_count_of_push(toks, u, TokenView::Indent);
                lemma_count_of_push(toks, u, TokenView::Dedent);
            }
            lemma_scan_from_balance(s, j, st, with_token(toks, t));
        }
    }
}

/// Over a whole text, the scanner emits as many `Indent` tokens as
/// `Dedent` tokens: every level it opens is closed by the end.
pub proof fn lemma_indents_balance(text: Seq<char>)
    ensures
        scan(text) matches Ok(ts) ==> count_of(ts, TokenView::Indent) == count_of(
            ts,
            TokenView::Dedent,
        ),
{
    let s = trim_end(text);
    let none = Seq::<TokenView>::empty();
    assert(levels_balance(initial_indent(), none));
    lemma_newline_step_balance(s, 0, initial_indent(), none);
    if let Ok((st, toks, j)) = newline_step(s, 0, initial_indent(), none) {
        lemma_scan_from_balance(s, j, st, toks);
    }
}

proof fn lemma_trim_end_ignores_whitespace(text: Seq<char>, ws: Seq<char>)
    requires
        forall|k: int| 0 <= k < ws.len() ==> white_space(#[trigger] ws[k]),
    ensures
        trim_end(text + ws) == trim_end(text),
    decreases ws.len(),
{
    if ws.len() == 0 {
        assert(text + ws =~= text);
    } else {
        assert((text + ws).drop_last() =~= text + ws.drop_last());
        assert((text + ws).last() == ws[ws.len() - 1]);
        lemma_trim_end_ignores_whitespace(text, ws.drop_last());
    }
}

/// Trailing whitespace does not change what a text scans to, nor what a
/// line tokenizes to.
pub proof fn lemma_trailing_whitespace(text: Seq<char>, ws: Seq<char>)
    requires
        forall|k: int| 0 <= k < ws.len() ==> white_space(#[trigger] ws[k]),
    ensures
        scan(text + ws) == scan(text),
        tokenize_line_spec(text + ws) == tokenize_line_spec(text),
{
    lemma_trim_end_ignores_whitespace(text, ws);
}

/// Whether `raw` is the source of a quoted literal closed by `q`: every `q`
/// in it is escaped by a backslash, and no backslash is left dangling.
pub open spec fn escaped_body(raw: Seq<char>, q: char) -> bool
    decreases raw.len(),
{
    if raw.len() == 0 {
        true
    } else if raw[0] == '\\' {
        raw.len() >= 2 && escaped_body(raw.skip(2), q)
    } else {
        raw[0] != q && escaped_body(raw.skip(1), q)
    }
}

/// The text that the source `raw` of a quoted literal stands for: each
/// backslash gives way to the character it escapes.
pub open spec fn unescape(raw: Seq<char>) -> Seq<char>
    decreases raw.len(),
{
    if raw.len() == 0 {
        raw
    } else if raw[0] == '\\' && raw.len() >= 2 {
        seq![raw[1]] + unescape(raw.skip(2))
    } else {
        seq![raw[0]] + unescape(raw.skip(1))
    }
}

proof fn lemma_quoted_run(s: Seq<char>, i: int, q: char, buf: Seq<char>)
    requires
        0 <= i <= s.len(),
    ensures
        read_run(s, i, CharRun::Quoted(q), buf) matches Ok((b, j)) ==> i <= j <= s.len()
            && escaped_body(s.subrange(i, j), q) && b == buf + unescape(s.subrange(i, j)) && (j
            == s.len() || s[j] == q),
    decreases s.len() - i,
{
    if i < s.len() && s[i] != q {
        if s[i] == '\\' {
            if i + 1 < s.len() {
                lemma_quoted_run(s, i + 2, q, buf.push(s[i + 1]));
                if let Ok((b, j)) = read_run(s, i, CharRun::Quoted(q), buf) {
                    let raw = s.subrange(i, j);
                    assert(raw.skip(2) =~= s.subrange(i + 2, j));
                    assert(buf.push(s[i + 1]) + unescape(s.subrange(i + 2, j)) =~= buf + (seq![
                        raw[1],
                    ] + unescape(raw.skip(2))));
                }
            }
        } else {
            lemma_quoted_run(s, i + 1, q, buf.push(s[i]));
            if let Ok((b, j)) = read_run(s, i, CharRun::Quoted(q), buf) {
                let raw = s.subrange(i, j);
                assert(raw.skip(1) =~= s.subrange(i + 1, j));
                assert(buf.push(s[i]) + unescape(s.subrange(i + 1, j)) =~= buf + (seq![raw[0]]
                    + unescape(raw.skip(1))));
            }
        }
    } else {
        assert(s.subrange(i, i) =~= Seq::<char>::empty());
        assert(buf + Seq::<char>::empty() =~= buf);
    }
}

/// Every string literal that the scanner reads stands between two equal
/// quotes, its source holds that quote only where a backslash escapes it,
/// and its payload is that source with the escapes decoded.
pub proof fn lemma_string_literal_source(s: Seq<char>, i: int)
    requires
        0 <= i < s.len(),
        s[i] != '\n',
    ensures
        char_step(s, i) matches Ok((Some(TokenView::StringLiteral(p)), j)) ==> {
            let q = s[i];
            &&& q == '\'' || q == '"'
            &&& i + 2 <= j <= s.len()
            &&& s[j - 1] == q
            &&& escaped_body(s.subrange(i + 1, j - 1), q)
            &&& p == unescape(s.subrange(i + 1, j - 1))
        },
{
    let c = s[i];
    lemma_quoted_run(s, i + 1, c, Seq::empty());
    if let Ok((b, j)) = read_run(s, i + 1, CharRun::Quoted(c), Seq::empty()) {
        assert(Seq::<char>::empty() + unescape(s.subrange(i + 1, j)) =~= unescape(
            s.subrange(i + 1, j),
        ));
    }
}

/// A word that is neither a key nor the source of a trait-tag reduces to
/// `Int(n)` where it spells an integer `n` of at most 65535, with an
/// optional `+`; to `Raw` of its text otherwise.
pub proof fn lemma_word_reduces(ts: Seq<TokenView>, i: int, w: Seq<char>)
    requires
        0 <= i < ts.len(),
        ts[i] == TokenView::Identifier(w),
        i + 1 < ts.len() ==> ts[i + 1] != TokenView::Op(Operator::EqualsSign) && ts[i + 1]
            != TokenView::Op(Operator::Period),
    ensures
        reduce_step(ts, i) == Ok::<(ExprView, int), crate::structs::ExprErrorView>(
            (number_or_raw(w), i + 1),
        ),
        number_or_raw(w) == match parse_u16(w) {
            Some(n) => ExprView::Int(n),
            None => ExprView::Raw(w),
        },
        parse_u16(w) matches Some(n) ==> n as nat == digits_value(unsigned_part(w)),
        parse_u16(w) is Some <==> {
            let d = unsigned_part(w);
            &&& d.len() > 0
            &&& forall|k: int| 0 <= k < d.len() ==> '0' <= #[trigger] d[k] <= '9'
            &&& digits_value(d) <= 65535
        },
{
}

/// Whether `c` is an ASCII punctuation character.
pub open spec fn ascii_punctuation(c: char) -> bool {
    ||| '!' <= c && c <= '/'
    ||| ':' <= c && c <= '@'
    ||| '[' <= c && c <= '`'
    ||| '{' <= c && c <= '~'
}

/// What the round trip needs of std's alphabetic and alphanumeric classes,
/// all of it true of Unicode: no ASCII punctuation, space or line feed is
/// alphanumeric; an alphabetic character is neither punctuation, nor a
/// digit, nor whitespace.
pub open spec fn standard_classes() -> bool {
    &&& forall|c: char| #[trigger] alphanumeric(c) ==> !ascii_punctuation(c) && c != ' ' && c != '\n'
    &&& forall|c: char| #[trigger]
        alphabetic(c) ==> !ascii_punctuation(c) && !is_digit(c) && !white_space(c)
}

/// The text of a number: digits, then at most one period and more digits.
pub open spec fn number_form(s: Seq<char>) -> bool {
    ||| s.len() > 0 && all_digits(s)
    ||| exists|n: int|
        0 < n < s.len() && #[trigger] s[n] == '.' && all_digits(s.take(n)) && all_digits(
            s.skip(n + 1),
        )
}

/// A token that stands within a line, in the form the scanner gives it.
pub open spec fn line_token(t: TokenView) -> bool {
    match t {
        TokenView::Op(op) => op != Operator::NewLine,
        TokenView::Indent => false,
        TokenView::Dedent => false,
        TokenView::StringLiteral(_) => true,
        TokenView::Number(s) => number_form(s),
        TokenView::Identifier(w) => w.len() > 0,
    }
}

/// Whether the text of `t` does not end in whitespace: a word may end in
/// an escaped space, which the end of a text loses.
pub open spec fn ends_visible(t: TokenView) -> bool {
    t matches TokenView::Identifier(w) ==> !white_space(w.last())
}

proof fn lemma_chars_at(x: Seq<char>, i: int, text: Seq<char>)
    requires
        0 <= i,
        i + text.len() <= x.len(),
        x.subrange(i, i + text.len()) == text,
    ensures
        forall|k: int| 0 <= k < text.len() ==> x[i + k] == #[trigger] text[k],
{
    assert forall|k: int| 0 <= k < text.len() implies x[i + k] == #[trigger] text[k] by {
        assert(x.subrange(i, i + text.len())[k] == x[i + k]);
    }
}

proof fn lemma_digit_run(x: Seq<char>, i: int, m: int, buf: Seq<char>)
    requires
        0 <= i,
        0 <= m,
        i + m <= x.len(),
        forall|k: int| i <= k < i + m ==> is_digit(#[trigger] x[k]),
        i + m == x.len() || !is_digit(x[i + m]),
    ensures
        read_run(x, i, CharRun::Digits, buf) == Ok::<(Seq<char>, int), crate::token::TokenErrorView>(
            (buf + x.subrange(i, i + m), i + m),
        ),
    decreases m,
{
    if m == 0 {
        assert(buf + x.subrange(i, i) =~= buf);
    } else {
        lemma_digit_run(x, i + 1, m - 1, buf.push(x[i]));
        assert(buf.push(x[i]) + x.subrange(i + 1, i + m) =~= buf + x.subrange(i, i + m));
    }
}

proof fn lemma_word_text_len(w: Seq<char>, k: int)
    requires
        0 <= k <= w.len(),
    ensures
        word_text(w, k).len() >= w.len() - k,
        k < w.len() ==> word_text(w, k).last() == w.last(),
    decreases w.len() - k,
{
    if k < w.len() {
        lemma_word_text_len(w, k + 1);
        if k + 1 == w.len() {
            assert(word_text(w, k + 1) =~= Seq::<char>::empty());
        }
    }
}

proof fn lemma_word_run(x: Seq<char>, i: int, w: Seq<char>, k: int, buf: Seq<char>)
    requires
        standard_classes(),
        1 <= k <= w.len(),
        0 <= i,
        i + word_text(w, k).len() <= x.len(),
        x.subrange(i, i + word_text(w, k).len()) == word_text(w, k),
        i + word_text(w, k).len() == x.len() || x[i + word_text(w, k).len()] == ' ' || x[i
            + word_text(w, k).len()] == '\n',
    ensures
        read_run(x, i, CharRun::Word, buf) == Ok::<(Seq<char>, int), crate::token::TokenErrorView>(
            (buf + w.skip(k), i + word_text(w, k).len()),
        ),
    decreases w.len() - k,
{
    let text = word_text(w, k);
    if k == w.len() {
        assert(text =~= Seq::<char>::empty());
        assert(buf + w.skip(k) =~= buf);
    } else {
        let c = w[k];
        let piece = word_char_text(c, false);
        let rest = word_text(w, k + 1);
        assert(text == piece + rest);
        assert(x.subrange(i, i + piece.len()) =~= piece) by {
            assert(x.subrange(i, i + piece.len()) =~= text.subrange(0, piece.len() as int));
        }
        assert(x.subrange(i + piece.len(), i + text.len()) =~= rest) by {
            assert(x.subrange(i + piece.len(), i + text.len()) =~= text.subrange(
                piece.len() as int,
                text.len() as int,
            ));
        }
        lemma_chars_at(x, i, piece);
        if c == '_' || alphanumeric(c) {
            assert(x[i] == piece[0]);
            lemma_word_run(x, i + 1, w, k + 1, buf.push(c));
        } else {
            assert(x[i] == piece[0] && x[i + 1] == piece[1]);
            lemma_word_run(x, i + 2, w, k + 1, buf.push(c));
        }
        assert(buf.push(c) + w.skip(k + 1) =~= buf + w.skip(k));
    }
}

proof fn lemma_quoted_text_len(s: Seq<char>, k: int)
    requires
        0 <= k <= s.len(),
    ensures
        quoted_text(s, k).len() >= s.len() - k,
    decreases s.len() - k,
{
    if k < s.len() {
        lemma_quoted_text_len(s, k + 1);
    }
}

proof fn lemma_quoted_text_run(x: Seq<char>, i: int, s: Seq<char>, k: int, buf: Seq<char>)
    requires
        0 <= k <= s.len(),
        0 <= i,
        i + quoted_text(s, k).len() < x.len(),
        x.subrange(i, i + quoted_text(s, k).len()) == quoted_text(s, k),
        x[i + quoted_text(s, k).len()] == '"',
    ensures
        read_run(x, i, CharRun::Quoted('"'), buf) == Ok::<
            (Seq<char>, int),
            crate::token::TokenErrorView,
        >((buf + s.skip(k), i + quoted_text(s, k).len())),
    decreases s.len() - k,
{
    let text = quoted_text(s, k);
    if k == s.len() {
        assert(text =~= Seq::<char>::empty());
        assert(buf + s.skip(k) =~= buf);
    } else {
        let c = s[k];
        let piece = if c == '"' || c == '\\' {
            seq!['\\', c]
        } else {
            seq![c]
        };
        let rest = quoted_text(s, k + 1);
        assert(text == piece + rest);
        assert(x.subrange(i, i + piece.len()) =~= piece) by {
            assert(x.subrange(i, i + piece.len()) =~= text.subrange(0, piece.len() as int));
        }
        assert(x.subrange(i + piece.len(), i + text.len()) =~= rest) by {
            assert(x.subrange(i + piece.len(), i + text.len()) =~= text.subrange(
                piece.len() as int,
                text.len() as int,
            ));
        }
        lemma_chars_at(x, i, piece);
        assert(x[i] == piece[0]);
        if c == '"' || c == '\\' {
            assert(x[i + 1] == piece[1]);
        }
        lemma_quoted_text_run(x, i + piece.len(), s, k + 1, buf.push(c));
        assert(buf.push(c) + s.skip(k + 1) =~= buf + s.skip(k));
    }
}

proof fn lemma_number_scan(x: Seq<char>, i: int, s: Seq<char>)
    requires
        standard_classes(),
        number_form(s),
        0 <= i,
        i + s.len() <= x.len(),
        x.subrange(i, i + s.len()) == s,
        i + s.len() == x.len() || x[i + s.len()] == ' ' || x[i + s.len()] == '\n',
    ensures
        read_run(x, i, CharRun::Digits, Seq::empty()) matches Ok((b, j)) && (if j < x.len()
            && x[j] == '.' {
            read_run(x, j + 1, CharRun::Digits, b.push('.')) == Ok::<
                (Seq<char>, int),
                crate::token::TokenErrorView,
            >((s, i + s.len()))
        } else {
            b == s && j == i + s.len()
        }),
{
    assert(forall|k: int| 0 <= k < s.len() ==> x[i + k] == #[trigger] s[k]);
    if s.len() > 0 && all_digits(s) {
        assert forall|k: int| i <= k < i + s.len() implies is_digit(#[trigger] x[k]) by {
            assert(x[k] == s[k - i]);
        }
        lemma_digit_run(x, i, s.len() as int, Seq::empty());
        assert(Seq::<char>::empty() + x.subrange(i, i + s.len()) =~= s);
    } else {
        let n = choose|n: int|
            0 < n < s.len() && #[trigger] s[n] == '.' && all_digits(s.take(n)) && all_digits(
                s.skip(n + 1),
            );
        assert forall|k: int| i <= k < i + n implies is_digit(#[trigger] x[k]) by {
            assert(x[k] == s[k - i]);
            assert(s.take(n)[k - i] == s[k - i]);
        }
        lemma_digit_run(x, i, n, Seq::empty());
        let m = s.len() - n - 1;
        assert forall|k: int| i + n + 1 <= k < i + n + 1 + m implies is_digit(#[trigger] x[k]) by {
            assert(x[k] == s[k - i]);
            assert(s.skip(n + 1)[k - i - n - 1] == s[k - i]);
        }
        lemma_digit_run(x, i + n + 1, m, (Seq::empty() + x.subrange(i, i + n)).push('.'));
        assert((Seq::empty() + x.subrange(i, i + n)).push('.') + x.subrange(
            i + n + 1,
            i + n + 1 + m,
        ) =~= s);
    }
}

/// The scanner reads the text of a line token back as that token, where a
/// space or the end of the text follows it.
proof fn lemma_token_scan(x: Seq<char>, i: int, t: TokenView)
    requires
        standard_classes(),
        line_token(t),
        0 <= i,
        i + token_text(t).len() <= x.len(),
        x.subrange(i, i + token_text(t).len()) == token_text(t),
        i + token_text(t).len() == x.len() || x[i + token_text(t).len()] == ' ' || x[i
            + token_text(t).len()] == '\n',
    ensures
        token_text(t).len() > 0,
        ends_visible(t) ==> !white_space(token_text(t).last()),
        !white_space(x[i]) && x[i] != '\n' && x[i] != '#',
        char_step(x, i) == Ok::<(Option<TokenView>, int), crate::token::TokenErrorView>(
            (Some(t), i + token_text(t).len()),
        ),
{
    let text = token_text(t);
    assert(forall|k: int| 0 <= k < text.len() ==> x[i + k] == #[trigger] text[k]);
    match t {
        TokenView::Op(op) => {
            assert(op != Operator::NewLine);
            assert(x[i] == text[0]);
            if text.len() == 2 {
                assert(x[i + 1] == text[1]);
            }
        },
        TokenView::Number(s) => {
            lemma_number_scan(x, i, s);
            if s.len() > 0 && all_digits(s) {
                assert(is_digit(s[0]));
                assert(is_digit(s[s.len() - 1]));
            } else {
                let n = choose|n: int|
                    0 < n < s.len() && #[trigger] s[n] == '.' && all_digits(s.take(n))
                        && all_digits(s.skip(n + 1));
                assert(is_digit(s.take(n)[0]));
                if n + 1 < s.len() {
                    assert(is_digit(s.skip(n + 1)[s.len() - n - 2]));
                }
            }
        },
        TokenView::StringLiteral(s) => {
            let q = quoted_text(s, 0);
            assert(text == seq!['"'] + q + seq!['"']);
            assert(x[i] == text[0]);
            assert(x.subrange(i + 1, i + 1 + q.len()) =~= q) by {
                assert(x.subrange(i + 1, i + 1 + q.len()) =~= text.subrange(1, 1 + q.len() as int));
            }
            assert(x[i + 1 + q.len()] == text[1 + q.len() as int]);
            lemma_quoted_text_run(x, i + 1, s, 0, Seq::empty());
            assert(Seq::<char>::empty() + s.skip(0) =~= s);
        },
        TokenView::Identifier(w) => {
            let c = w[0];
            let piece = word_char_text(c, true);
            let rest = word_text(w, 1);
            lemma_word_text_len(w, 0);
            lemma_word_text_len(w, 1);
            assert(text == piece + rest);
            assert(x.subrange(i + piece.len(), i + text.len()) =~= rest) by {
                assert(x.subrange(i + piece.len(), i + text.len()) =~= text.subrange(
                    piece.len() as int,
                    text.len() as int,
                ));
            }
            assert(x.subrange(i, i + piece.len()) =~= piece) by {
                assert(x.subrange(i, i + piece.len()) =~= text.subrange(0, piece.len() as int));
            }
            lemma_chars_at(x, i, piece);
            if c == '_' || alphabetic(c) {
                assert(x[i] == piece[0]);
                lemma_word_run(x, i + 1, w, 1, seq![c]);
            } else {
                assert(x[i] == piece[0] && x[i + 1] == piece[1]);
                lemma_word_run(x, i + 2, w, 1, seq![c]);
            }
            assert(seq![c] + w.skip(1) =~= w);
        },
        _ => {},
    }
}

/// Whether `p` is the payload of a quoted literal of `s`: some quote at
/// `i` is closed by the same quote at `j - 1`, every quote in between is
/// escaped, and `p` is what lies in between with the escapes decoded.
pub open spec fn quoted_in(s: Seq<char>, p: Seq<char>) -> bool {
    exists|i: int, j: int|
        0 <= i && i + 2 <= j <= s.len() && (s[i] == '\'' || s[i] == '"') && s[j - 1] == s[i]
            && escaped_body(#[trigger] s.subrange(i + 1, j - 1), s[i]) && p == unescape(
            s.subrange(i + 1, j - 1),
        )
}

pub open spec fn literals_quoted(s: Seq<char>, toks: Seq<TokenView>) -> bool {
    forall|k: int|
        0 <= k < toks.len() ==> (#[trigger] toks[k] matches TokenView::StringLiteral(p) ==> quoted_in(
            s,
            p,
        ))
}

proof fn lemma_literals_quoted_concat(s: Seq<char>, a: Seq<TokenView>, b: Seq<TokenView>)
    requires
        literals_quoted(s, a),
        forall|k: int| 0 <= k < b.len() ==> !(#[trigger] b[k] is StringLiteral),
    ensures
        literals_quoted(s, a + b),
{
    assert forall|k: int| 0 <= k < (a + b).len() implies (#[trigger] (a + b)[k] matches TokenView::StringLiteral(p) ==> quoted_in(s, p)) by {
        if k >= a.len() {
            assert((a + b)[k] == b[k - a.len()]);
        } else {
            assert((a + b)[k] == a[k]);
        }
    }
}

proof fn lemma_scan_from_literals(s: Seq<char>, i: int, st: IndentView, toks: Seq<TokenView>)
    requires
        literals_quoted(s, toks),
    ensures
        scan_from(s, i, st, toks) matches Ok(ts) ==> literals_quoted(s, ts),
    decreases s.len() - i,
{
    if i < 0 || i >= s.len() {
        lemma_literals_quoted_concat(s, toks, repeated(TokenView::Dedent, st.depth));
    } else if s[i] == '\n' {
        lemma_newline_step_advances(s, i + 1, st, toks);
        lemma_newline_step_literals(s, i + 1, st, toks);
        if let Ok((st2, toks2, j)) = newline_step(s, i + 1, st, toks) {
            lemma_scan_from_literals(s, j, st2, toks2);
        }
    } else {
        lemma_char_step_advances(s, i);
        lemma_string_literal_source(s, i);
        if let Ok((t, j)) = char_step(s, i) {
            if let Some(u) = t {
                if let TokenView::StringLiteral(p) = u {
                    assert(quoted_in(s, p)) by {
                        assert(escaped_body(s.subrange(i + 1, j - 1), s[i]));
                    }
                }
                assert forall|k: int| 0 <= k < toks.push(u).len() implies (#[trigger] toks.push(
                    u,
                )[k] matches TokenView::StringLiteral(p) ==> quoted_in(s, p)) by {
                    if k < toks.len() {
                        assert(toks.push(u)[k] == toks[k]);
                    }
                }
            }
            lemma_scan_from_literals(s, j, st, with_token(toks, t));
        }
    }
}

proof fn lemma_newline_step_literals(s: Seq<char>, i: int, st: IndentView, toks: Seq<TokenView>)
    requires
        literals_quoted(s, toks),
    ensures
        newline_step(s, i, st, toks) matches Ok((st2, toks2, j)) ==> literals_quoted(s, toks2),
{
    let nl = seq![TokenView::Op(Operator::NewLine)];
    let toks1 = if toks.len() > 0 {
        toks.push(TokenView::Op(Operator::NewLine))
    } else {
        toks
    };
    if toks.len() > 0 {
        assert(toks.push(TokenView::Op(Operator::NewLine)) =~= toks + nl);
        lemma_literals_quoted_concat(s, toks, nl);
    }
    let j = crate::lexing::indent_end(s, i);
    if !(j >= s.len() || s[j] == '#' || s[j] == '\n') {
        if let Ok((st2, extra)) = indent_step(st, s.subrange(i, j)) {
            lemma_literals_quoted_concat(s, toks1, extra);
        }
    }
}

/// Every string literal that a scan yields comes from a quoted literal of
/// the text: its payload is the text between two equal quotes, in which
/// every such quote is escaped by a backslash, with the escapes decoded.
pub proof fn lemma_scanned_literals_quoted(text: Seq<char>)
    ensures
        scan(text) matches Ok(ts) ==> literals_quoted(trim_end(text), ts),
{
    let s = trim_end(text);
    let none = Seq::<TokenView>::empty();
    lemma_newline_step_literals(s, 0, initial_indent(), none);
    if let Ok((st, toks, j)) = newline_step(s, 0, initial_indent(), none) {
        lemma_scan_from_literals(s, j, st, toks);
    }
}

proof fn lemma_digits_read(s: Seq<char>, i: int, buf: Seq<char>)
    requires
        0 <= i <= s.len(),
    ensures
        read_run(s, i, CharRun::Digits, buf) matches Ok((b, j)) && i <= j <= s.len() && b == buf
            + s.subrange(i, j) && all_digits(s.subrange(i, j)),
    decreases s.len() - i,
{
    if i < s.len() && is_digit(s[i]) {
        lemma_digits_read(s, i + 1, buf.push(s[i]));
        if let Ok((b, j)) = read_run(s, i + 1, CharRun::Digits, buf.push(s[i])) {
            assert(buf.push(s[i]) + s.subrange(i + 1, j) =~= buf + s.subrange(i, j));
            assert(forall|k: int| 0 <= k < j - i ==> #[trigger] s.subrange(i, j)[k] == (if k == 0 {
                s[i]
            } else {
                s.subrange(i + 1, j)[k - 1]
            }));
        }
    } else {
        assert(buf + s.subrange(i, i) =~= buf);
    }
}

proof fn lemma_run_keeps_buffer(s: Seq<char>, i: int, run: CharRun, buf: Seq<char>)
    requires
        0 <= i <= s.len(),
    ensures
        read_run(s, i, run, buf) matches Ok((b, j)) ==> b.len() >= buf.len(),
    decreases s.len() - i,
{
    if 0 <= i < s.len() && crate::lexing::run_accepts(run, s[i]) {
        if s[i] == '\\' {
            if i + 1 < s.len() {
                lemma_run_keeps_buffer(s, i + 2, run, buf.push(s[i + 1]));
            }
        } else {
            lemma_run_keeps_buffer(s, i + 1, run, buf.push(s[i]));
        }
    }
}

/// Where a token stream stands between lines: at the start of a line,
/// with the markers seen so far there (positive for `Indent`, negative for
/// `Dedent`); within a line; or among the markers that close the stream.
pub enum Phase {
    Opening(int),
    InLine,
    Closing,
}

/// The state of a token stream with block structure: the depth, whether
/// the first indented line has been seen, whether any line token has.
pub struct Blocks {
    pub depth: nat,
    pub bound: bool,
    pub started: bool,
    pub phase: Phase,
}

pub open spec fn block_start() -> Blocks {
    Blocks { depth: 0, bound: false, started: false, phase: Phase::Opening(0) }
}

/// The state after token `t`, if `t` may come next. Markers stand at the
/// start of a line and all go one way; the first indented line is one
/// level deep; a blank line has no markers; the stream closes with
/// `Dedent` markers.
pub open spec fn block_step(b: Blocks, t: TokenView) -> Option<Blocks> {
    let nl = TokenView::Op(Operator::NewLine);
    match b.phase {
        Phase::Opening(m) => if t == TokenView::Indent {
            if m >= 0 && (b.bound || (b.depth == 0 && m == 0)) {
                Some(Blocks { depth: b.depth + 1, phase: Phase::Opening(m + 1), ..b })
            } else {
                None
            }
        } else if t == TokenView::Dedent {
            if m <= 0 && b.depth > 0 {
                Some(Blocks { depth: (b.depth - 1) as nat, phase: Phase::Opening(m - 1), ..b })
            } else {
                None
            }
        } else if t == nl {
            if m == 0 && b.started {
                Some(b)
            } else {
                None
            }
        } else if line_token(t) {
            Some(Blocks { bound: b.bound || b.depth > 0, started: true, phase: Phase::InLine, ..b })
        } else {
            None
        },
        Phase::InLine => if t == nl {
            Some(Blocks { phase: Phase::Opening(0), ..b })
        } else if t == TokenView::Dedent && b.depth > 0 {
            Some(Blocks { depth: (b.depth - 1) as nat, phase: Phase::Closing, ..b })
        } else if line_token(t) {
            Some(b)
        } else {
            None
        },
        Phase::Closing => if t == TokenView::Dedent && b.depth > 0 {
            Some(Blocks { depth: (b.depth - 1) as nat, ..b })
        } else {
            None
        },
    }
}

/// The state after the whole of `ts`, if it is a valid prefix.
pub open spec fn blocks(ts: Seq<TokenView>) -> Option<Blocks>
    decreases ts.len(),
{
    if ts.len() == 0 {
        Some(block_start())
    } else {
        match blocks(ts.drop_last()) {
            Some(b) => block_step(b, ts.last()),
            None => None,
        }
    }
}

/// Whether `ts` is a complete stream with block structure: every level it
/// opens is closed, and it does not end at the start of a line.
pub open spec fn block_stream(ts: Seq<TokenView>) -> bool {
    blocks(ts) matches Some(b) && b.depth == 0 && (b.phase == Phase::InLine || b.phase
        == Phase::Closing || !b.started)
}

/// The indentation state in which the scanner reads back a stream that
/// is in state `b`: one tab for each level.
pub open spec fn tab_state(b: Blocks) -> IndentView {
    IndentView {
        depth: b.depth,
        ch: if b.bound {
            '\t'
        } else {
            '_'
        },
        step: if b.bound {
            1
        } else {
            0
        },
    }
}

proof fn lemma_blocks_prefix(ts: Seq<TokenView>, k: int)
    requires
        0 <= k <= ts.len(),
        blocks(ts) is Some,
    ensures
        blocks(ts.take(k)) is Some,
    decreases ts.len() - k,
{
    if k < ts.len() {
        assert(ts.take(k + 1).drop_last() =~= ts.take(k));
        lemma_blocks_prefix(ts, k + 1);
    } else {
        assert(ts.take(k) =~= ts);
    }
}

proof fn lemma_blocks_next(ts: Seq<TokenView>, k: int)
    requires
        0 <= k < ts.len(),
    ensures
        blocks(ts.take(k + 1)) == match blocks(ts.take(k)) {
            Some(b) => block_step(b, ts[k]),
            None => None,
        },
{
    assert(ts.take(k + 1).drop_last() =~= ts.take(k));
    assert(ts.take(k + 1).last() == ts[k]);
}

/// Until the first indented line, the depth is zero, or one within that
/// line's markers; within a line or among the closing markers, a line
/// token has been seen.
pub open spec fn unbound_shallow(b: Blocks) -> bool {
    &&& !b.bound ==> (b.depth == 0 || (b.depth == 1 && b.phase == Phase::Opening(1)))
    &&& (b.phase == Phase::InLine || b.phase == Phase::Closing || b.bound) ==> b.started
}

proof fn lemma_blocks_shallow(ts: Seq<TokenView>)
    ensures
        blocks(ts) matches Some(b) ==> unbound_shallow(b),
    decreases ts.len(),
{
    if ts.len() > 0 {
        lemma_blocks_shallow(ts.drop_last());
    }
}

/// The first position at or after `k` that does not hold a marker.
pub open spec fn group_end(ts: Seq<TokenView>, k: int) -> int
    decreases ts.len() - k,
{
    if 0 <= k < ts.len() && (ts[k] == TokenView::Indent || ts[k] == TokenView::Dedent) {
        group_end(ts, k + 1)
    } else {
        k
    }
}

/// The markers at the start of a line all go one way, and take the depth
/// from that of `b` to that of the state after them.
proof fn lemma_group(ts: Seq<TokenView>, k: int, j: int, b: Blocks)
    requires
        0 <= k <= j <= group_end(ts, k),
        j <= ts.len(),
        blocks(ts.take(k)) == Some(b),
        b.phase == Phase::Opening(0),
        blocks(ts) is Some,
    ensures
        group_end(ts, k) <= ts.len(),
        blocks(ts.take(j)) matches Some(b2) && b2.bound == b.bound && b2.started == b.started && ({
            ||| b2.phase == Phase::Opening(j - k) && b2.depth == b.depth + (j - k)
                && ts.subrange(k, j) == repeated(TokenView::Indent, (j - k) as nat)
            ||| b2.phase == Phase::Opening(k - j) && b2.depth + (j - k) == b.depth
                && ts.subrange(k, j) == repeated(TokenView::Dedent, (j - k) as nat)
        }),
    decreases j - k,
{
    lemma_group_end_bounds(ts, k);
    lemma_blocks_prefix(ts, j);
    if j == k {
        assert(ts.subrange(k, j) =~= repeated(TokenView::Indent, 0));
    } else {
        lemma_group(ts, k, j - 1, b);
        lemma_blocks_next(ts, j - 1);
        lemma_group_member(ts, k, j - 1);
        let b1 = blocks(ts.take(j - 1))->0;
        if ts[j - 1] == TokenView::Indent {
            assert(ts.subrange(k, j) =~= ts.subrange(k, j - 1).push(TokenView::Indent));
            assert(repeated(TokenView::Indent, (j - k) as nat) =~= repeated(
                TokenView::Indent,
                (j - 1 - k) as nat,
            ).push(TokenView::Indent));
            if j - 1 > k {
                assert(b1.phase == Phase::Opening(j - 1 - k));
            }
        } else {
            assert(ts.subrange(k, j) =~= ts.subrange(k, j - 1).push(TokenView::Dedent));
            assert(repeated(TokenView::Dedent, (j - k) as nat) =~= repeated(
                TokenView::Dedent,
                (j - 1 - k) as nat,
            ).push(TokenView::Dedent));
            if j - 1 > k {
                assert(b1.phase == Phase::Opening(k - j + 1));
            }
        }
    }
}

proof fn lemma_group_end_bounds(ts: Seq<TokenView>, k: int)
    requires
        0 <= k <= ts.len(),
    ensures
        k <= group_end(ts, k) <= ts.len(),
        group_end(ts, k) < ts.len() ==> ts[group_end(ts, k)] != TokenView::Indent
            && ts[group_end(ts, k)] != TokenView::Dedent,
    decreases ts.len() - k,
{
    if k < ts.len() && (ts[k] == TokenView::Indent || ts[k] == TokenView::Dedent) {
        lemma_group_end_bounds(ts, k + 1);
    }
}

proof fn lemma_group_member(ts: Seq<TokenView>, k: int, j: int)
    requires
        0 <= k <= j < group_end(ts, k),
        group_end(ts, k) <= ts.len(),
    ensures
        ts[j] == TokenView::Indent || ts[j] == TokenView::Dedent,
    decreases j - k,
{
    if j > k {
        lemma_group_member(ts, k + 1, j);
    }
}

/// Over the markers at the start of a line, rendering only moves the depth.
proof fn lemma_render_group(ts: Seq<TokenView>, k: int, j: int, b: Blocks)
    requires
        0 <= k <= j <= group_end(ts, k),
        j <= ts.len(),
        blocks(ts.take(k)) == Some(b),
        b.phase == Phase::Opening(0),
        blocks(ts) is Some,
    ensures
        render_from(ts, k, b.depth, true) == render_from(ts, j, blocks(ts.take(j))->0.depth, true),
    decreases j - k,
{
    lemma_group(ts, k, j, b);
    if j > k {
        lemma_render_group(ts, k, j - 1, b);
        lemma_group(ts, k, j - 1, b);
        lemma_group_member(ts, k, j - 1);
        lemma_blocks_next(ts, j - 1);
    }
}

/// Within a line, what the rendering has next starts with a space or a
/// line feed.
proof fn lemma_render_first(ts: Seq<TokenView>, k: int, d: nat)
    requires
        0 <= k <= ts.len(),
    ensures
        render_from(ts, k, d, false).len() > 0,
        render_from(ts, k, d, false)[0] == ' ' || render_from(ts, k, d, false)[0] == '\n',
    decreases ts.len() - k,
{
    if k < ts.len() {
        let t = ts[k];
        if t == TokenView::Indent {
            lemma_render_first(ts, k + 1, d + 1);
        } else if t == TokenView::Dedent {
            lemma_render_first(ts, k + 1, if d > 0 {
                (d - 1) as nat
            } else {
                0
            });
        }
    }
}

/// Closing markers render to nothing.
proof fn lemma_render_dedents(ts: Seq<TokenView>, k: int, d: nat)
    requires
        0 <= k <= ts.len(),
        forall|m: int| k <= m < ts.len() ==> #[trigger] ts[m] == TokenView::Dedent,
    ensures
        render_from(ts, k, d, false) == seq!['\n'],
    decreases ts.len() - k,
{
    if k < ts.len() {
        lemma_render_dedents(ts, k + 1, if d > 0 {
            (d - 1) as nat
        } else {
            0
        });
    }
}

proof fn lemma_indent_end_tabs(x: Seq<char>, j: int, d: int)
    requires
        standard_classes(),
        0 <= j,
        0 <= d,
        j + d < x.len(),
        forall|m: int| j <= m < j + d ==> #[trigger] x[m] == '\t',
        !white_space(x[j + d]),
    ensures
        crate::lexing::indent_end(x, j) == j + d,
    decreases d,
{
    if d > 0 {
        lemma_indent_end_tabs(x, j + 1, d - 1);
    }
}

pub open spec fn with_newline(toks: Seq<TokenView>) -> Seq<TokenView> {
    if toks.len() > 0 {
        toks.push(TokenView::Op(Operator::NewLine))
    } else {
        toks
    }
}

/// The scanner reads the start of a rendered line back: the tabs give the
/// markers of the line, and the line's first token follows.
proof fn lemma_line_start(
    x: Seq<char>,
    j: int,
    ts: Seq<TokenView>,
    k: int,
    b: Blocks,
    toks: Seq<TokenView>,
)
    requires
        standard_classes(),
        blocks(ts) is Some,
        0 <= k <= ts.len(),
        blocks(ts.take(k)) == Some(b),
        b.phase == Phase::Opening(0),
        group_end(ts, k) < ts.len(),
        line_token(ts[group_end(ts, k)]),
        0 <= j <= x.len(),
        x.subrange(j, x.len() as int) + seq!['\n'] == render_from(ts, k, b.depth, true),
    ensures
        ({
            let e = group_end(ts, k);
            let d = blocks(ts.take(e))->0.depth;
            &&& blocks(ts.take(e + 1)) matches Some(b3) && b3.phase == Phase::InLine && b3.depth
                == d && newline_step(x, j, tab_state(b), toks) == Ok::<
                (IndentView, Seq<TokenView>, int),
                crate::token::TokenErrorView,
            >((tab_state(b3), with_newline(toks) + ts.subrange(k, e), j + d))
            &&& j + d <= x.len()
            &&& x.subrange(j + d, x.len() as int) + seq!['\n'] == token_text(ts[e]) + render_from(
                ts,
                e + 1,
                d,
                false,
            )
        }),
{
    let e = group_end(ts, k);
    lemma_group_end_bounds(ts, k);
    lemma_group(ts, k, e, b);
    lemma_blocks_prefix(ts, e);
    lemma_blocks_prefix(ts, e + 1);
    lemma_blocks_next(ts, e);
    let b2 = blocks(ts.take(e))->0;
    let d = b2.depth;
    let b3 = block_step(b2, ts[e])->0;
    lemma_blocks_shallow(ts.take(e));
    lemma_render_group(ts, k, e, b);
    let t = ts[e];
    let text = token_text(t);
    let after = render_from(ts, e + 1, d, false);
    assert(render_from(ts, e, d, true) == tabs(d) + text + after);
    let y = x.subrange(j, x.len() as int);
    assert(y + seq!['\n'] == tabs(d) + text + after);
    lemma_render_first(ts, e + 1, d);
    // the tabs, the token and what follows it, in `x`
    assert(forall|m: int| 0 <= m < d ==> #[trigger] (y + seq!['\n'])[m] == '\t');
    assert(forall|m: int| j <= m < j + d ==> #[trigger] x[m] == '\t') by {
        assert forall|m: int| j <= m < j + d implies #[trigger] x[m] == '\t' by {
            assert(x[m] == y[m - j]);
            assert((y + seq!['\n'])[m - j] == '\t');
        }
    }
    let n = text.len() as int;
    assert(x.subrange(j + d, x.len() as int) + seq!['\n'] =~= text + after) by {
        assert((y + seq!['\n']).subrange(d as int, (y.len() + 1) as int) =~= text + after);
        assert(x.subrange(j + d, x.len() as int) + seq!['\n'] =~= (y + seq!['\n']).subrange(
            d as int,
            (y.len() + 1) as int,
        ));
    }
    let z = x.subrange(j + d, x.len() as int);
    assert(z + seq!['\n'] == text + after);
    lemma_text_in(x, j + d, t, after);
    lemma_token_scan(x, j + d, t);
    lemma_indent_end_tabs(x, j, d as int);
    let w = x.subrange(j, j + d);
    assert(w =~= tabs(d));
    let st = tab_state(b);
    if d > 0 {
        assert(w[0] == '\t');
        if !b.bound {
            assert(d == 1);
        }
        assert(forall|m: int| 0 <= m < w.len() ==> w[m] == '\t');
        if d >= st.depth {
            assert(ts.subrange(k, e) =~= repeated(TokenView::Indent, (d - st.depth) as nat));
        } else {
            assert(ts.subrange(k, e) =~= repeated(TokenView::Dedent, (st.depth - d) as nat));
        }
        assert(tab_state(b3) == IndentView { depth: d, ch: '\t', step: 1 });
    } else {
        assert(ts.subrange(k, e) =~= repeated(TokenView::Dedent, st.depth));
        assert(tab_state(b3) == IndentView { depth: 0, ..st });
    }
}

/// The text of a line token in `x` at `p`, where `x` from `p` on and a
/// final line feed give that text and then `after`, which starts with a
/// space or a line feed.
proof fn lemma_text_in(x: Seq<char>, p: int, t: TokenView, after: Seq<char>)
    requires
        0 <= p <= x.len(),
        after.len() > 0,
        after[0] == ' ' || after[0] == '\n',
        x.subrange(p, x.len() as int) + seq!['\n'] == token_text(t) + after,
    ensures
        p + token_text(t).len() <= x.len(),
        x.subrange(p, p + token_text(t).len()) == token_text(t),
        p + token_text(t).len() == x.len() || x[p + token_text(t).len()] == ' ' || x[p
            + token_text(t).len()] == '\n',
{
    let text = token_text(t);
    let n = text.len() as int;
    let z = x.subrange(p, x.len() as int);
    assert((z + seq!['\n']).len() == n + after.len());
    assert(x.subrange(p, p + n) =~= text) by {
        assert forall|m: int| 0 <= m < n implies x.subrange(p, p + n)[m] == text[m] by {
            assert(x[p + m] == z[m]);
            assert((z + seq!['\n'])[m] == (text + after)[m]);
        }
    }
    if p + n < x.len() {
        assert(x[p + n] == z[n]);
        assert((z + seq!['\n'])[n] == (text + after)[n]);
    }
}

/// Where the characters of `x` from `i` on, and a final line feed, are
/// `a` then `r` (not empty): `a` stands in `x` at `i`, and `r` follows it.
proof fn lemma_suffix_split(x: Seq<char>, i: int, a: Seq<char>, r: Seq<char>)
    requires
        0 <= i <= x.len(),
        r.len() > 0,
        x.subrange(i, x.len() as int) + seq!['\n'] == a + r,
    ensures
        i + a.len() <= x.len(),
        forall|m: int| 0 <= m < a.len() ==> x[i + m] == #[trigger] a[m],
        x.subrange(i + a.len(), x.len() as int) + seq!['\n'] == r,
{
    let y = x.subrange(i, x.len() as int);
    assert((y + seq!['\n']).len() == a.len() + r.len());
    assert forall|m: int| 0 <= m < a.len() implies x[i + m] == #[trigger] a[m] by {
        assert(x[i + m] == y[m]);
        assert((y + seq!['\n'])[m] == (a + r)[m]);
    }
    assert(x.subrange(i + a.len(), x.len() as int) + seq!['\n'] =~= r) by {
        assert forall|m: int| 0 <= m < r.len() implies (x.subrange(i + a.len(), x.len() as int)
            + seq!['\n'])[m] == r[m] by {
            assert((y + seq!['\n'])[a.len() + m] == (a + r)[a.len() + m]);
            if m < r.len() - 1 {
                assert(x[i + a.len() + m] == y[a.len() + m]);
            }
        }
    }
}

proof fn lemma_closing_tail(ts: Seq<TokenView>, k: int)
    requires
        block_stream(ts),
        0 <= k <= ts.len(),
        blocks(ts.take(k)) matches Some(b) && b.phase == Phase::Closing,
    ensures
        forall|m: int| k <= m < ts.len() ==> #[trigger] ts[m] == TokenView::Dedent,
        ts.len() - k == blocks(ts.take(k))->0.depth,
    decreases ts.len() - k,
{
    if k < ts.len() {
        lemma_blocks_next(ts, k);
        lemma_blocks_prefix(ts, k + 1);
        lemma_closing_tail(ts, k + 1);
    } else {
        assert(ts.take(k) =~= ts);
    }
}

proof fn lemma_render_ends(ts: Seq<TokenView>, k: int, d: nat, fresh: bool)
    requires
        0 <= k <= ts.len(),
    ensures
        render_from(ts, k, d, fresh).len() > 0,
        render_from(ts, k, d, fresh).last() == '\n',
    decreases ts.len() - k,
{
    if k < ts.len() {
        let t = ts[k];
        if t == TokenView::Indent {
            lemma_render_ends(ts, k + 1, d + 1, fresh);
        } else if t == TokenView::Dedent {
            lemma_render_ends(ts, k + 1, if d > 0 {
                (d - 1) as nat
            } else {
                0
            }, fresh);
        } else if t == TokenView::Op(Operator::NewLine) {
            lemma_render_ends(ts, k + 1, d, true);
        } else {
            lemma_render_ends(ts, k + 1, d, false);
        }
    }
}

/// The scanner reads back the rest of a rendered stream from within a line.
#[verifier::spinoff_prover]
#[verifier::rlimit(40)]
proof fn lemma_read_back_in_line(
    x: Seq<char>,
    i: int,
    ts: Seq<TokenView>,
    k: int,
    b: Blocks,
    toks: Seq<TokenView>,
)
    requires
        standard_classes(),
        block_stream(ts),
        forall|m: int| 0 <= m < ts.len() ==> ends_visible(#[trigger] ts[m]),
        0 <= k <= ts.len(),
        blocks(ts.take(k)) == Some(b),
        b.phase == Phase::InLine,
        0 <= i <= x.len(),
        x.subrange(i, x.len() as int) + seq!['\n'] == render_from(ts, k, b.depth, false),
        toks.len() > 0,
    ensures
        scan_from(x, i, tab_state(b), toks) == Ok::<Seq<TokenView>, crate::token::TokenErrorView>(
            toks + ts.skip(k),
        ),
        i < x.len() ==> !white_space(x.last()),
    decreases ts.len() - k, 2nat,
{
    let st = tab_state(b);
    let y = x.subrange(i, x.len() as int);
    if k == ts.len() {
        assert(ts.take(k) =~= ts);
        assert(y.len() == 0);
        assert(toks + repeated(TokenView::Dedent, 0) =~= toks + ts.skip(k));
    } else {
        let t = ts[k];
        lemma_blocks_prefix(ts, k + 1);
        lemma_blocks_next(ts, k);
        if t == TokenView::Op(Operator::NewLine) {
            lemma_read_back_newline(x, i, ts, k, b, toks);
        } else if t == TokenView::Dedent {
            lemma_closing_tail(ts, k + 1);
            lemma_render_dedents(ts, k, b.depth);
            assert(y.len() == 0);
            assert(ts.skip(k) =~= repeated(TokenView::Dedent, b.depth));
        } else {
            let text = token_text(t);
            let n = text.len() as int;
            let after = render_from(ts, k + 1, b.depth, false);
            assert(render_from(ts, k, b.depth, false) == seq![' '] + text + after);
            lemma_render_first(ts, k + 1, b.depth);
            assert(seq![' '] + text + after =~= seq![' '] + (text + after));
            lemma_suffix_split(x, i, seq![' '], text + after);
            assert(x[i] == seq![' '][0]);
            lemma_text_in(x, i + 1, t, after);
            lemma_token_scan(x, i + 1, t);
            assert(char_step(x, i) == Ok::<(Option<TokenView>, int), crate::token::TokenErrorView>(
                (None, i + 1),
            ));
            assert(scan_from(x, i, st, toks) == scan_from(x, i + 1, st, toks));
            assert(scan_from(x, i + 1, st, toks) == scan_from(x, i + 1 + n, st, toks.push(t)));
            lemma_suffix_split(x, i + 1, text, after);
            lemma_read_back_in_line(x, i + 1 + n, ts, k + 1, b, toks.push(t));
            assert(toks.push(t) + ts.skip(k + 1) =~= toks + ts.skip(k));
            if i + 1 + n == x.len() {
                assert(x.last() == x[i + 1 + (n - 1)]);
            }
        }
    }
}

/// The scanner reads back the rest of a rendered stream from a line feed.
#[verifier::spinoff_prover]
#[verifier::rlimit(40)]
proof fn lemma_read_back_newline(
    x: Seq<char>,
    i: int,
    ts: Seq<TokenView>,
    k: int,
    b: Blocks,
    toks: Seq<TokenView>,
)
    requires
        standard_classes(),
        block_stream(ts),
        forall|m: int| 0 <= m < ts.len() ==> ends_visible(#[trigger] ts[m]),
        0 <= k < ts.len(),
        ts[k] == TokenView::Op(Operator::NewLine),
        blocks(ts.take(k)) == Some(b),
        b.phase == Phase::InLine || (b.phase == Phase::Opening(0) && b.started),
        0 <= i <= x.len(),
        x.subrange(i, x.len() as int) + seq!['\n'] == seq!['\n'] + render_from(
            ts,
            k + 1,
            b.depth,
            true,
        ),
        toks.len() > 0,
    ensures
        scan_from(x, i, tab_state(b), toks) == Ok::<Seq<TokenView>, crate::token::TokenErrorView>(
            toks + ts.skip(k),
        ),
        i < x.len(),
        !white_space(x.last()),
    decreases ts.len() - k, 1nat,
{
    let nl = TokenView::Op(Operator::NewLine);
    let st = tab_state(b);
    lemma_blocks_prefix(ts, k + 1);
    lemma_blocks_next(ts, k);
    let b1 = blocks(ts.take(k + 1))->0;
    lemma_blocks_shallow(ts.take(k));
    assert(b1 == Blocks { phase: Phase::Opening(0), ..b });
    assert(tab_state(b1) == st);
    let e = group_end(ts, k + 1);
    lemma_group_end_bounds(ts, k + 1);
    lemma_group(ts, k + 1, e, b1);
    if e == ts.len() {
        assert(ts.take(e) =~= ts);
        assert(false);
    }
    lemma_blocks_prefix(ts, e + 1);
    lemma_blocks_next(ts, e);
    let r = render_from(ts, k + 1, b.depth, true);
    lemma_render_ends(ts, k + 1, b.depth, true);
    lemma_suffix_split(x, i, seq!['\n'], r);
    assert(x[i] == seq!['\n'][0]);
    let toks1 = toks.push(nl);
    if ts[e] == nl {
        assert(e == k + 1);
        assert(r == seq!['\n'] + render_from(ts, k + 2, b.depth, true));
        lemma_render_ends(ts, k + 2, b.depth, true);
        lemma_suffix_split(x, i + 1, seq!['\n'], render_from(ts, k + 2, b.depth, true));
        assert(x[i + 1] == seq!['\n'][0]);
        assert(crate::lexing::indent_end(x, i + 1) == i + 1);
        assert(newline_step(x, i + 1, st, toks) == Ok::<
            (IndentView, Seq<TokenView>, int),
            crate::token::TokenErrorView,
        >((st, toks1, i + 1)));
        assert(scan_from(x, i, st, toks) == scan_from(x, i + 1, st, toks1));
        lemma_read_back_newline(x, i + 1, ts, k + 1, b1, toks1);
        assert(toks1 + ts.skip(k + 1) =~= toks + ts.skip(k));
    } else {
        lemma_read_back_indented_line(x, i, ts, k, b, toks);
    }
}

/// The scanner reads back a line feed followed by a line that holds a
/// token: the tabs give the line's markers, then the line is read.
#[verifier::spinoff_prover]
#[verifier::rlimit(40)]
proof fn lemma_read_back_indented_line(
    x: Seq<char>,
    i: int,
    ts: Seq<TokenView>,
    k: int,
    b: Blocks,
    toks: Seq<TokenView>,
)
    requires
        standard_classes(),
        block_stream(ts),
        forall|m: int| 0 <= m < ts.len() ==> ends_visible(#[trigger] ts[m]),
        0 <= k < ts.len(),
        ts[k] == TokenView::Op(Operator::NewLine),
        blocks(ts.take(k + 1)) == Some(Blocks { phase: Phase::Opening(0), ..b }),
        group_end(ts, k + 1) < ts.len(),
        line_token(ts[group_end(ts, k + 1)]),
        0 <= i < x.len(),
        x[i] == '\n',
        x.subrange(i + 1, x.len() as int) + seq!['\n'] == render_from(ts, k + 1, b.depth, true),
        toks.len() > 0,
    ensures
        scan_from(x, i, tab_state(b), toks) == Ok::<Seq<TokenView>, crate::token::TokenErrorView>(
            toks + ts.skip(k),
        ),
        !white_space(x.last()),
    decreases ts.len() - k, 0nat,
{
    let nl = TokenView::Op(Operator::NewLine);
    let st = tab_state(b);
    let b1 = Blocks { phase: Phase::Opening(0), ..b };
    assert(tab_state(b1) == st);
    let e = group_end(ts, k + 1);
    lemma_group_end_bounds(ts, k + 1);
    let toks1 = toks.push(nl);
    lemma_line_start(x, i + 1, ts, k + 1, b1, toks);
    let d = blocks(ts.take(e))->0.depth;
    let b3 = blocks(ts.take(e + 1))->0;
    let t = ts[e];
    let text = token_text(t);
    let n = text.len() as int;
    let after = render_from(ts, e + 1, d, false);
    let toks2 = toks1 + ts.subrange(k + 1, e);
    assert(scan_from(x, i, st, toks) == scan_from(x, i + 1 + d, tab_state(b3), toks2));
    lemma_render_first(ts, e + 1, d);
    lemma_text_in(x, i + 1 + d, t, after);
    lemma_token_scan(x, i + 1 + d, t);
    assert(scan_from(x, i + 1 + d, tab_state(b3), toks2) == scan_from(
        x,
        i + 1 + d + n,
        tab_state(b3),
        toks2.push(t),
    ));
    lemma_suffix_split(x, i + 1 + d, text, after);
    lemma_read_back_in_line(x, i + 1 + d + n, ts, e + 1, b3, toks2.push(t));
    assert(toks2.push(t) + ts.skip(e + 1) =~= toks + ts.skip(k));
    if i + 1 + d + n == x.len() {
        assert(x.last() == x[i + 1 + d + (n - 1)]);
    }
}

/// A token stream with block structure, written out as text and scanned
/// again, gives back the same tokens: where the stream's numbers have the
/// scanner's form, its words are non-empty and do not end in whitespace,
/// its markers open and close levels at the starts of lines (the first
/// indented line one level deep), and it does not end at the start of a
/// line; given std's character classes as `standard_classes` states them.
#[verifier::spinoff_prover]
#[verifier::rlimit(40)]
pub proof fn lemma_blocks_round_trip(ts: Seq<TokenView>)
    requires
        standard_classes(),
        block_stream(ts),
        forall|m: int| 0 <= m < ts.len() ==> ends_visible(#[trigger] ts[m]),
    ensures
        scan(render(ts)) == Ok::<Seq<TokenView>, crate::token::TokenErrorView>(ts),
{
    let none = Seq::<TokenView>::empty();
    lemma_render_ends(ts, 0, 0, true);
    let x = render(ts).drop_last();
    assert(x + seq!['\n'] =~= render(ts));
    assert(trim_end(x + seq!['\n']) == trim_end(x));
    assert(x.subrange(0, x.len() as int) =~= x);
    assert(ts.take(0) =~= none);
    if ts.len() == 0 {
        assert(render(ts) == seq!['\n']);
        assert(x =~= Seq::<char>::empty());
        assert(trim_end(x) == x);
        assert(repeated(TokenView::Dedent, 0) =~= none);
        assert(none + none =~= ts);
    } else {
        let b = block_start();
        let e = group_end(ts, 0);
        lemma_group_end_bounds(ts, 0);
        lemma_group(ts, 0, e, b);
        if e == ts.len() {
            assert(ts.take(e) =~= ts);
            assert(false);
        }
        lemma_blocks_prefix(ts, e + 1);
        lemma_blocks_next(ts, e);
        lemma_line_start(x, 0, ts, 0, b, none);
        let d = blocks(ts.take(e))->0.depth;
        let b3 = blocks(ts.take(e + 1))->0;
        let t = ts[e];
        let text = token_text(t);
        let n = text.len() as int;
        let after = render_from(ts, e + 1, d, false);
        let toks2 = none + ts.subrange(0, e);
        assert(tab_state(b) == initial_indent());
        lemma_render_first(ts, e + 1, d);
        lemma_text_in(x, d as int, t, after);
        lemma_token_scan(x, d as int, t);
        assert(scan_from(x, d as int, tab_state(b3), toks2) == scan_from(
            x,
            d + n,
            tab_state(b3),
            toks2.push(t),
        ));
        lemma_suffix_split(x, d as int, text, after);
        lemma_read_back_in_line(x, d + n, ts, e + 1, b3, toks2.push(t));
        assert(toks2.push(t) + ts.skip(e + 1) =~= ts);
        if d + n == x.len() {
            assert(x.last() == x[d + (n - 1)]);
        }
        assert(x.len() > 0);
        assert(trim_end(x) == x);
    }
}

/// A character that starts a token: not whitespace, a comment or a line feed.
pub open spec fn token_start(c: char) -> bool {
    !white_space(c) && c != '#' && c != '\n'
}

proof fn lemma_char_step_line_token(s: Seq<char>, i: int)
    requires
        0 <= i < s.len(),
    ensures
        char_step(s, i) matches Ok((Some(t), j)) ==> line_token(t),
        token_start(s[i]) ==> (char_step(s, i) matches Ok((t, j)) ==> t is Some),
{
    let c = s[i];
    lemma_digits_read(s, i, Seq::empty());
    if let Ok((b, j)) = read_run(s, i, CharRun::Digits, Seq::empty()) {
        if j < s.len() {
            lemma_digits_read(s, j + 1, b.push('.'));
        }
        if is_digit(c) {
            crate::lexing::lemma_read_run_bounds(s, i, CharRun::Digits, Seq::empty());
            assert(s.subrange(i, j)[0] == c);
            if j < s.len() && s[j] == '.' {
                if let Ok((b2, k)) = read_run(s, j + 1, CharRun::Digits, b.push('.')) {
                    let n = b.len() as int;
                    assert(b2[n] == '.');
                    assert(b2.take(n) =~= s.subrange(i, j));
                    assert(b2.skip(n + 1) =~= s.subrange(j + 1, k));
                }
            } else {
                assert(Seq::<char>::empty() + s.subrange(i, j) =~= s.subrange(i, j));
            }
        }
    }
    lemma_run_keeps_buffer(s, i + 1, CharRun::Word, seq![c]);
    if i + 1 < s.len() {
        lemma_run_keeps_buffer(s, i + 2, CharRun::Word, seq![s[i + 1]]);
    }
}


/// Whether a stream ends at the start of a line: a `NewLine` followed by
/// nothing but `Dedent` markers.
pub open spec fn ends_at_line_start(ts: Seq<TokenView>) -> bool {
    exists|k: int|
        0 <= k < ts.len() && ts[k] == TokenView::Op(Operator::NewLine) && forall|m: int|
            k < m < ts.len() ==> #[trigger] ts[m] == TokenView::Dedent
}

/// The scanner at position `i` in state `st`, having produced `toks`,
/// agrees with the block structure of `toks`: the depths match, the step is
/// fixed once a line was indented, and markers that open a line are
/// followed by the line's first token.
pub open spec fn scan_agrees(s: Seq<char>, i: int, st: IndentView, toks: Seq<TokenView>) -> bool {
    blocks(toks) matches Some(b) && {
        &&& b.depth == st.depth
        &&& (st.step > 0) == (b.bound || b.depth > 0)
        &&& b.phase != Phase::Closing
        &&& (b.phase == Phase::Opening(0) && !b.started) ==> toks.len() == 0
        &&& (b.phase matches Phase::Opening(m) && m != 0) ==> (0 <= i < s.len() && token_start(s[i]))
    }
}

proof fn lemma_blocks_push(ts: Seq<TokenView>, t: TokenView)
    ensures
        blocks(ts.push(t)) == match blocks(ts) {
            Some(b) => block_step(b, t),
            None => None,
        },
{
    assert(ts.push(t).drop_last() =~= ts);
}

/// Markers appended at the start of a line.
proof fn lemma_blocks_markers(ts: Seq<TokenView>, b: Blocks, up: bool, n: nat)
    requires
        blocks(ts) == Some(b),
        b.phase == Phase::Opening(0),
        up ==> (b.bound || (b.depth == 0 && n <= 1)),
        !up ==> b.depth >= n,
    ensures
        blocks(ts + repeated(if up { TokenView::Indent } else { TokenView::Dedent }, n)) == Some(
            Blocks {
                depth: if up {
                    b.depth + n
                } else {
                    (b.depth - n) as nat
                },
                phase: Phase::Opening(if up {
                    n as int
                } else {
                    -n
                }),
                ..b
            },
        ),
    decreases n,
{
    let t = if up {
        TokenView::Indent
    } else {
        TokenView::Dedent
    };
    if n == 0 {
        assert(ts + repeated(t, 0) =~= ts);
    } else {
        lemma_blocks_markers(ts, b, up, (n - 1) as nat);
        assert(ts + repeated(t, n) =~= (ts + repeated(t, (n - 1) as nat)).push(t));
        lemma_blocks_push(ts + repeated(t, (n - 1) as nat), t);
    }
}

/// Closing markers appended within a line.
proof fn lemma_blocks_closing(ts: Seq<TokenView>, b: Blocks, n: nat)
    requires
        blocks(ts) == Some(b),
        b.phase == Phase::InLine || b.phase == Phase::Closing,
        n <= b.depth,
    ensures
        blocks(ts + repeated(TokenView::Dedent, n)) matches Some(b2) && b2.depth == b.depth - n
            && (b2.phase == Phase::InLine || b2.phase == Phase::Closing) && b2.started == b.started,
    decreases n,
{
    if n == 0 {
        assert(ts + repeated(TokenView::Dedent, 0) =~= ts);
    } else {
        lemma_blocks_closing(ts, b, (n - 1) as nat);
        assert(ts + repeated(TokenView::Dedent, n) =~= (ts + repeated(
            TokenView::Dedent,
            (n - 1) as nat,
        )).push(TokenView::Dedent));
        lemma_blocks_push(ts + repeated(TokenView::Dedent, (n - 1) as nat), TokenView::Dedent);
    }
}

proof fn lemma_blocks_opening_last(ts: Seq<TokenView>)
    ensures
        blocks(ts) matches Some(b) && b.phase == Phase::Opening(0) && b.started ==> ts.len() > 0
            && ts.last() == TokenView::Op(Operator::NewLine),
    decreases ts.len(),
{
    if ts.len() > 0 {
        lemma_blocks_opening_last(ts.drop_last());
    }
}

proof fn lemma_newline_step_agrees(s: Seq<char>, i: int, st: IndentView, toks: Seq<TokenView>)
    requires
        0 <= i <= s.len(),
        blocks(toks) matches Some(b) && b.depth == st.depth && (st.step > 0) == (b.bound || b.depth
            > 0) && (b.phase == Phase::InLine || b.phase == Phase::Opening(0)) && ((b.phase
            == Phase::Opening(0) && !b.started) ==> toks.len() == 0),
    ensures
        newline_step(s, i, st, toks) matches Ok((st2, toks2, j)) ==> scan_agrees(s, j, st2, toks2),
{
    let b = blocks(toks)->0;
    lemma_blocks_shallow(toks);
    let nl = TokenView::Op(Operator::NewLine);
    let toks1 = if toks.len() > 0 {
        toks.push(nl)
    } else {
        toks
    };
    lemma_blocks_push(toks, nl);
    let b1 = blocks(toks1)->0;
    assert(b1 == Blocks { phase: Phase::Opening(0), ..b });
    let j = crate::lexing::indent_end(s, i);
    crate::lexing::lemma_indent_end_bounds(s, i);
    if !(j >= s.len() || s[j] == '#' || s[j] == '\n') {
        let w = s.subrange(i, j);
        assert(token_start(s[j]));
        if let Ok((st2, extra)) = indent_step(st, w) {
            if w.len() == 0 {
                lemma_blocks_markers(toks1, b1, false, st.depth);
            } else {
                let step = if st.step == 0 {
                    w.len()
                } else {
                    st.step
                };
                let d = w.len() / step;
                if st.step == 0 {
                    assert(d == 1) by (nonlinear_arith)
                        requires
                            step == w.len(),
                            w.len() > 0,
                            d == w.len() / step,
                    ;
                }
                if d >= st.depth {
                    lemma_blocks_markers(toks1, b1, true, (d - st.depth) as nat);
                } else {
                    lemma_blocks_markers(toks1, b1, false, (st.depth - d) as nat);
                }
                if d == st.depth {
                    assert(repeated(TokenView::Indent, 0) =~= repeated(TokenView::Dedent, 0));
                }
            }
        }
    }
}

proof fn lemma_scan_from_agrees(s: Seq<char>, i: int, st: IndentView, toks: Seq<TokenView>)
    requires
        scan_agrees(s, i, st, toks),
    ensures
        scan_from(s, i, st, toks) matches Ok(ts) ==> block_stream(ts) || ends_at_line_start(ts),
    decreases s.len() - i,
{
    let b = blocks(toks)->0;
    lemma_blocks_shallow(toks);
    if i < 0 || i >= s.len() {
        let ts = toks + repeated(TokenView::Dedent, st.depth);
        if b.phase == Phase::InLine {
            lemma_blocks_closing(toks, b, st.depth);
        } else if b.started {
            lemma_blocks_opening_last(toks);
            let k = toks.len() - 1;
            assert(ts[k] == toks[k]);
            assert(forall|m: int| k < m < ts.len() ==> #[trigger] ts[m] == TokenView::Dedent);
        } else {
            assert(ts =~= toks);
        }
    } else if s[i] == '\n' {
        lemma_newline_step_agrees(s, i + 1, st, toks);
        crate::lexing::lemma_newline_step_advances(s, i + 1, st, toks);
        if let Ok((st2, toks2, j)) = newline_step(s, i + 1, st, toks) {
            lemma_scan_from_agrees(s, j, st2, toks2);
        }
    } else {
        lemma_char_step_line_token(s, i);
        lemma_char_step_advances(s, i);
        if let Ok((t, j)) = char_step(s, i) {
            if let Some(u) = t {
                lemma_blocks_push(toks, u);
            }
            lemma_scan_from_agrees(s, j, st, with_token(toks, t));
        }
    }
}

/// A scan, written out as text and scanned again, gives back the same
/// tokens, unless it ends at the start of a line (as a text that ends in
/// a comment line does) or holds a word that ends in escaped whitespace;
/// given std's character classes as `standard_classes` states them.
pub proof fn lemma_scan_round_trip(text: Seq<char>, ts: Seq<TokenView>)
    requires
        standard_classes(),
        scan(text) == Ok::<Seq<TokenView>, crate::token::TokenErrorView>(ts),
        !ends_at_line_start(ts),
        forall|m: int| 0 <= m < ts.len() ==> ends_visible(#[trigger] ts[m]),
    ensures
        scan(render(ts)) == Ok::<Seq<TokenView>, crate::token::TokenErrorView>(ts),
{
    let s = trim_end(text);
    let none = Seq::<TokenView>::empty();
    assert(blocks(none) == Some(block_start()));
    lemma_newline_step_agrees(s, 0, initial_indent(), none);
    if let Ok((st, toks, j)) = newline_step(s, 0, initial_indent(), none) {
        lemma_scan_from_agrees(s, j, st, toks);
    }
    lemma_blocks_round_trip(ts);
}

proof fn lemma_trim_end_prefix(t: Seq<char>)
    ensures
        trim_end(t).len() <= t.len(),
        trim_end(t) == t.take(trim_end(t).len() as int),
        t.len() > 0 && !white_space(t[0]) ==> trim_end(t).len() > 0,
    decreases t.len(),
{
    if t.len() > 0 && white_space(t.last()) {
        lemma_trim_end_prefix(t.drop_last());
        let r = trim_end(t.drop_last());
        assert(t.drop_last().take(r.len() as int) =~= t.take(r.len() as int));
    } else {
        assert(t.take(t.len() as int) =~= t);
    }
}

proof fn lemma_comment_end_at_end(s: Seq<char>, i: int)
    requires
        0 <= i <= s.len(),
        forall|k: int| 0 <= k < s.len() ==> #[trigger] s[k] != '\n',
    ensures
        crate::lexing::comment_end(s, i) == s.len(),
    decreases s.len() - i,
{
    if i < s.len() {
        lemma_comment_end_at_end(s, i + 1);
    }
}

/// A text that is nothing but a comment holds no tokens: the line
/// tokenizer reports `NoTokensPresent`, and the scanner gives no token.
pub proof fn lemma_comment_only(text: Seq<char>)
    requires
        text.len() > 0,
        text[0] == '#',
        forall|k: int| 0 <= k < text.len() ==> #[trigger] text[k] != '\n',
    ensures
        tokenize_line_spec(text) == Err::<(nat, Seq<TokenView>), crate::token::TokenErrorView>(
            crate::token::TokenErrorView::NoTokensPresent,
        ),
        scan(text) == Ok::<Seq<TokenView>, crate::token::TokenErrorView>(Seq::empty()),
{
    lemma_trim_end_prefix(text);
    let s = trim_end(text);
    assert(s[0] == '#') by {
        assert(s[0] == text.take(s.len() as int)[0]);
    }
    assert forall|k: int| 0 <= k < s.len() implies #[trigger] s[k] != '\n' by {
        assert(s[k] == text.take(s.len() as int)[k]);
    }
    let none = Seq::<TokenView>::empty();
    assert(crate::lines::space_end(s, 0) == 0);
    assert(crate::lines::line_from(s, 0, Seq::empty(), false, none) == Ok::<
        Seq<TokenView>,
        crate::token::TokenErrorView,
    >(none));
    assert(crate::lexing::indent_end(s, 0) == 0);
    lemma_comment_end_at_end(s, 1);
    assert(char_step(s, 0) == Ok::<(Option<TokenView>, int), crate::token::TokenErrorView>(
        (None, s.len() as int),
    ));
    assert(scan_from(s, 0, initial_indent(), none) == scan_from(
        s,
        s.len() as int,
        initial_indent(),
        none,
    ));
    assert(none + repeated(TokenView::Dedent, 0) =~= none);
}

/// The source of a quoted literal that holds no backslash holds no quote
/// either, and stands for itself: such a payload never holds its quote.
pub proof fn lemma_unescaped_source(raw: Seq<char>, q: char)
    requires
        escaped_body(raw, q),
        forall|k: int| 0 <= k < raw.len() ==> #[trigger] raw[k] != '\\',
    ensures
        unescape(raw) == raw,
        forall|k: int| 0 <= k < raw.len() ==> #[trigger] raw[k] != q,
    decreases raw.len(),
{
    if raw.len() > 0 {
        let rest = raw.skip(1);
        assert forall|k: int| 0 <= k < rest.len() implies #[trigger] rest[k] != '\\' by {
            assert(rest[k] == raw[k + 1]);
        }
        lemma_unescaped_source(rest, q);
        assert(seq![raw[0]] + rest =~= raw);
        assert forall|k: int| 0 <= k < raw.len() implies #[trigger] raw[k] != q by {
            if k > 0 {
                assert(raw[k] == rest[k - 1]);
            }
        }
    }
}

} // verus!
