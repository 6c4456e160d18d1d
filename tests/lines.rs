use not_oblivion_xml::{
    extract_tokens, reduce_tokens, tokenize_line, ArithmeticToken, Expr, ExprConversionFailure,
    LineConversionFailure, Operator, RelationalOperator, Token, TokenError,
};

fn raw(s: &str) -> Expr {
    Expr::Raw(s.to_string())
}

fn ident(s: &str) -> Token {
    Token::Identifier(s.to_string())
}

#[test]
fn empty_comment_line() {
    assert_eq!(
        extract_tokens("# This line should be empty."),
        Err(LineConversionFailure::TokenFailure(TokenError::NoTokensPresent))
    );
    assert_eq!(
        extract_tokens("   "),
        Err(LineConversionFailure::TokenFailure(TokenError::NoTokensPresent))
    );
}

#[test]
fn attribute_line() {
    let line = extract_tokens("rect name=\"container\":").unwrap();
    assert_eq!(line.leading_whitespace, 0);
    assert_eq!(
        line.members,
        vec![
            raw("rect"),
            Expr::Attribute { key: "name".to_string(), val: "container".to_string() },
            Expr::Colon,
        ]
    );
}

#[test]
fn trait_tag_with_escape() {
    let line = extract_tokens("me().width - 0\\.0 # comment").unwrap();
    assert_eq!(
        line.members,
        vec![
            Expr::Trait { src: "me()".to_string(), arg: None, trait_name: "width".to_string() },
            Expr::Arithmetic(ArithmeticToken::Sub),
            raw("0.0"),
        ]
    );
}

#[test]
fn bracketed_selector_trait() {
    let tokens = not_oblivion_xml::parse_string("$me<child>.width-0.0").unwrap();
    assert_eq!(
        reduce_tokens(&tokens).unwrap(),
        vec![
            Expr::Trait {
                src: "me".to_string(),
                arg: Some("child".to_string()),
                trait_name: "width".to_string(),
            },
            Expr::Arithmetic(ArithmeticToken::Sub),
            raw("0.0"),
        ]
    );
}

#[test]
fn selector_with_empty_or_no_argument() {
    let line = extract_tokens("$me<>.width $you.height").unwrap();
    assert_eq!(
        line.members,
        vec![
            Expr::Trait {
                src: "me".to_string(),
                arg: Some(String::new()),
                trait_name: "width".to_string(),
            },
            Expr::Trait { src: "you".to_string(), arg: None, trait_name: "height".to_string() },
        ]
    );
}

#[test]
fn arithmetic_bracket_set() {
    let line = extract_tokens("[ / * - + % ]").unwrap();
    assert_eq!(
        line.members,
        vec![
            Expr::Arithmetic(ArithmeticToken::OpenBracket),
            Expr::Arithmetic(ArithmeticToken::Div),
            Expr::Arithmetic(ArithmeticToken::Mult),
            Expr::Arithmetic(ArithmeticToken::Sub),
            Expr::Arithmetic(ArithmeticToken::Add),
            Expr::Arithmetic(ArithmeticToken::Mod),
            Expr::Arithmetic(ArithmeticToken::CloseBracket),
        ]
    );
}

#[test]
fn relational_operators_pass_through() {
    let line = extract_tokens("a < b <= c > d >= e == f != g").unwrap();
    let rel = |r| Expr::Relational(r);
    assert_eq!(
        line.members,
        vec![
            raw("a"),
            rel(RelationalOperator::LessThan),
            raw("b"),
            rel(RelationalOperator::LessThanEqual),
            raw("c"),
            rel(RelationalOperator::GreaterThan),
            raw("d"),
            rel(RelationalOperator::GreaterThanEqual),
            raw("e"),
            rel(RelationalOperator::EqualTo),
            raw("f"),
            rel(RelationalOperator::NotEqual),
            raw("g"),
        ]
    );
}

#[test]
fn words_read_as_small_integers() {
    let line = extract_tokens("0 65535 65536 +7 -7 007 12a x").unwrap();
    assert_eq!(
        line.members,
        vec![
            Expr::Int(0),
            Expr::Int(65535),
            raw("65536"),
            Expr::Arithmetic(ArithmeticToken::Add),
            Expr::Int(7),
            Expr::Arithmetic(ArithmeticToken::Sub),
            Expr::Int(7),
            Expr::Int(7),
            raw("12a"),
            raw("x"),
        ]
    );
    let tokens = vec![ident("+7"), ident("99999"), Token::StringLiteral("5".to_string())];
    assert_eq!(reduce_tokens(&tokens).unwrap(), vec![Expr::Int(7), raw("99999"), raw("5")]);
}

#[test]
fn leading_whitespace_is_counted() {
    let line = extract_tokens("    a").unwrap();
    assert_eq!(line.leading_whitespace, 4);
    assert_eq!(line.members, vec![raw("a")]);
    let line = extract_tokens("\t\tb: ").unwrap();
    assert_eq!(line.leading_whitespace, 2);
    assert_eq!(line.members, vec![raw("b"), Expr::Colon]);
}

#[test]
fn line_with_mixed_leading_whitespace() {
    assert_eq!(
        extract_tokens(" \tx"),
        Err(LineConversionFailure::TokenFailure(TokenError::InconsistentWhitespace))
    );
    assert_eq!(
        extract_tokens("\t x"),
        Err(LineConversionFailure::TokenFailure(TokenError::InconsistentWhitespace))
    );
}

#[test]
fn line_ending_in_backslash() {
    assert_eq!(
        extract_tokens("abc\\"),
        Err(LineConversionFailure::TokenFailure(TokenError::UnexpectedEndOfLine(
            "char after backslash"
        )))
    );
}

#[test]
fn line_with_unterminated_quote() {
    assert_eq!(
        extract_tokens("\"abc"),
        Err(LineConversionFailure::TokenFailure(TokenError::UnterminatedStringLiteral(
            "abc".to_string()
        )))
    );
}

#[test]
fn quoted_parts_join_their_word() {
    let line = tokenize_line("a\"b c\"d 'e\\'f'").unwrap();
    assert_eq!(line.members, vec![ident("ab cd"), ident("e'f")]);
}

#[test]
fn line_operators_split_words() {
    let line = tokenize_line("x:y$z<=w").unwrap();
    assert_eq!(
        line.members,
        vec![
            ident("x"),
            Token::Op(Operator::Colon),
            ident("y"),
            Token::Op(Operator::Dollar),
            ident("z"),
            Token::Op(Operator::LessThanEqual),
            ident("w"),
        ]
    );
}

#[test]
fn attribute_errors() {
    assert_eq!(
        extract_tokens("key="),
        Err(LineConversionFailure::ExprFailure(ExprConversionFailure::UnexpectedLastToken(
            ident("key"),
            "expected token after attribute operator"
        )))
    );
    assert_eq!(
        extract_tokens("key=:"),
        Err(LineConversionFailure::ExprFailure(ExprConversionFailure::InvalidToken(
            Token::Op(Operator::Colon),
            "expected string after equals sign"
        )))
    );
}

#[test]
fn trait_tag_errors() {
    assert_eq!(
        extract_tokens("src."),
        Err(LineConversionFailure::ExprFailure(ExprConversionFailure::UnexpectedLastToken(
            ident("src"),
            "expected token after period"
        )))
    );
    assert_eq!(
        extract_tokens("src.:"),
        Err(LineConversionFailure::ExprFailure(ExprConversionFailure::InvalidToken(
            Token::Op(Operator::Colon),
            "expected string"
        )))
    );
}

#[test]
fn selector_errors() {
    let dollar = Token::Op(Operator::Dollar);
    let expr_err = |e| Err(LineConversionFailure::ExprFailure(e));
    assert_eq!(
        extract_tokens("$"),
        expr_err(ExprConversionFailure::UnexpectedLastToken(dollar.clone(), "expected string"))
    );
    assert_eq!(
        extract_tokens("$:"),
        expr_err(ExprConversionFailure::InvalidToken(Token::Op(Operator::Colon), "expected string"))
    );
    assert_eq!(
        extract_tokens("$a<"),
        expr_err(ExprConversionFailure::UnexpectedLastToken(
            dollar.clone(),
            "expected string or right angle bracket"
        ))
    );
    assert_eq!(
        extract_tokens("$a<:"),
        expr_err(ExprConversionFailure::InvalidToken(
            Token::Op(Operator::Colon),
            "expected string or right angle bracket"
        ))
    );
    assert_eq!(
        extract_tokens("$a<b"),
        expr_err(ExprConversionFailure::UnexpectedLastToken(
            dollar.clone(),
            "expected right angle bracket"
        ))
    );
    assert_eq!(
        extract_tokens("$a<b:"),
        expr_err(ExprConversionFailure::InvalidToken(
            Token::Op(Operator::Colon),
            "expected right angle bracket"
        ))
    );
    assert_eq!(
        extract_tokens("$a"),
        expr_err(ExprConversionFailure::UnexpectedLastToken(dollar.clone(), "expected period"))
    );
    assert_eq!(
        extract_tokens("$a:"),
        expr_err(ExprConversionFailure::InvalidToken(Token::Op(Operator::Colon), "expected period"))
    );
    assert_eq!(
        extract_tokens("$a<b>."),
        expr_err(ExprConversionFailure::UnexpectedLastToken(dollar.clone(), "expected string"))
    );
    assert_eq!(
        extract_tokens("$a<b>.:"),
        expr_err(ExprConversionFailure::InvalidToken(Token::Op(Operator::Colon), "expected string"))
    );
}

#[test]
fn rejected_starts() {
    assert_eq!(
        extract_tokens("= a"),
        Err(LineConversionFailure::ExprFailure(ExprConversionFailure::InvalidToken(
            Token::Op(Operator::EqualsSign),
            "incorrect token to start expression"
        )))
    );
    assert_eq!(
        extract_tokens(". a"),
        Err(LineConversionFailure::ExprFailure(ExprConversionFailure::InvalidToken(
            Token::Op(Operator::Period),
            "incorrect token to start expression"
        )))
    );
    assert_eq!(
        extract_tokens("! a"),
        Err(LineConversionFailure::ExprFailure(ExprConversionFailure::NotYetImplemented(
            Token::Op(Operator::Bang)
        )))
    );
}

#[test]
fn block_markers_are_not_supported() {
    let tokens = not_oblivion_xml::parse_string("a\n  b").unwrap();
    assert_eq!(
        reduce_tokens(&tokens),
        Err(ExprConversionFailure::NotSupported(Token::Op(Operator::NewLine)))
    );
    assert_eq!(
        reduce_tokens(&vec![Token::Indent]),
        Err(ExprConversionFailure::NotSupported(Token::Indent))
    );
}

#[test]
fn line_trailing_whitespace_changes_nothing() {
    for text in ["rect name=\"container\":", "  a.b", "$x<y>.z"] {
        assert_eq!(extract_tokens(&format!("{text} \t ")), extract_tokens(text));
    }
}

#[test]
fn empty_quoted_literal_is_a_word() {
    let line = tokenize_line("\"\"").unwrap();
    assert_eq!(line.members, vec![ident("")]);
    assert_eq!(extract_tokens("''").unwrap().members, vec![raw("")]);
    assert_eq!(
        extract_tokens("key=\"\"").unwrap().members,
        vec![Expr::Attribute { key: "key".to_string(), val: String::new() }]
    );
    assert_eq!(
        tokenize_line("a \"\" b").unwrap().members,
        vec![ident("a"), ident(""), ident("b")]
    );
}
