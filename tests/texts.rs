use not_oblivion_xml::{
    describe, extract_tokens, parse_string, render_tokens, CompositeRelationalOperator, ErrorEnum,
    Expr, ExprConversionFailure, LineConversionFailure, Operator, RelationalOperator, Token,
    TokenError,
};

#[test]
fn render_round_trips() {
    let texts = [
        "$me<child>.width-0.0",
        "0 = 1 == 2 > 3 >= 4 < 5 <= 6 ! 7 != 8.0",
        "a\n  b \"q\\\"t\" 'x'\n    c\n\n  d # note\ne",
        "a\\-b \\1x été _u",
        "( / * - + % ) : .",
    ];
    for text in texts {
        let tokens = parse_string(text).unwrap();
        let rendered = render_tokens(&tokens);
        assert_eq!(parse_string(&rendered).unwrap(), tokens, "{rendered:?}");
    }
}

#[test]
fn render_layout() {
    let tokens = parse_string("a b\n  c \"d\"\ne").unwrap();
    assert_eq!(render_tokens(&tokens), "a b\n\tc \"d\"\ne\n");
}

#[test]
fn token_texts() {
    assert_eq!(Token::Identifier("a-b".to_string()).text(), "a\\-b");
    assert_eq!(Token::Identifier("1x".to_string()).text(), "\\1x");
    assert_eq!(Token::StringLiteral("say \"hi\"".to_string()).text(), "\"say \\\"hi\\\"\"");
    assert_eq!(Token::Number("2.50".to_string()).text(), "2.50");
    assert_eq!(Token::Op(Operator::GreaterThanEqual).text(), ">=");
    assert_eq!(Operator::NotEqual.symbol(), "!=");
}

#[test]
fn expression_texts() {
    let line = extract_tokens("  rect name=\"container\" $me<child>.width me.x 42 [ >= ]:").unwrap();
    assert_eq!(line.text(), "  rect name=\"container\" $me<child>.width me.x 42 [ >= ] :");
    assert_eq!(Expr::Int(65535).text(), "65535");
    assert_eq!(Expr::Int(0).text(), "0");
}

#[test]
fn relational_abbreviations() {
    assert_eq!(RelationalOperator::EqualTo.abbr(), "et");
    assert_eq!(RelationalOperator::GreaterThan.abbr(), "gt");
    assert_eq!(RelationalOperator::GreaterThanEqual.abbr(), "gte");
    assert_eq!(RelationalOperator::LessThan.abbr(), "lt");
    assert_eq!(RelationalOperator::LessThanEqual.abbr(), "lte");
    assert_eq!(RelationalOperator::NotEqual.abbr(), "ne");
    assert_eq!(
        CompositeRelationalOperator::into(&CompositeRelationalOperator::NotEqual),
        RelationalOperator::NotEqual
    );
    assert_eq!(Operator::LessThanEqual.composite(), Some(CompositeRelationalOperator::LessThanEqual));
    assert_eq!(Operator::Colon.composite(), None);
}

#[test]
fn error_descriptions() {
    assert_eq!(describe(&TokenError::NoTokensPresent), "NoTokensPresent");
    assert_eq!(describe(&TokenError::InconsistentWhitespace), "InconsistentWhitespace");
    assert_eq!(
        describe(&TokenError::UnexpectedEndOfLine("char after backslash")),
        "UnexpectedEndOfLine: expected char after backslash, got end of line"
    );
    assert_eq!(
        describe(&TokenError::UnterminatedStringLiteral("abc".to_string())),
        "UnterminatedStringLiteral: abc"
    );
    assert_eq!(describe(&TokenError::InvalidCharacter(';')), "InvalidCharacter: ;");
    assert_eq!(
        describe(&ExprConversionFailure::NotYetImplemented(Token::Op(Operator::Bang))),
        "NotYetImplemented: token '!' not yet supported"
    );
    assert_eq!(
        describe(&ExprConversionFailure::NotSupported(Token::Indent)),
        "NotSupported: token '' not supported"
    );
    let err = extract_tokens("key=").unwrap_err();
    assert_eq!(err.name(), "ExprFailure::UnexpectedLastToken");
    assert_eq!(
        describe(&err),
        "ExprFailure::UnexpectedLastToken: last token 'key': expected token after attribute operator"
    );
    let err = LineConversionFailure::TokenFailure(TokenError::NoTokensPresent);
    assert_eq!(describe(&err), "TokenFailure::NoTokensPresent");
    assert_eq!(err.message(), None);
}

#[test]
fn token_line_text() {
    let line = not_oblivion_xml::tokenize_line("  a=\"b c\" <= [x]").unwrap();
    assert_eq!(line.text(), "  a = b\\ c <= ( x )");
}

#[test]
fn render_round_trip_keeps_blocks() {
    let text = "a\n  b\n    c\n\n  d\ne\n  f";
    let tokens = parse_string(text).unwrap();
    assert_eq!(parse_string(&render_tokens(&tokens)).unwrap(), tokens);
}

#[test]
fn render_loses_a_trailing_line_break() {
    let tokens = parse_string("a\n# note").unwrap();
    assert_eq!(tokens, vec![Token::Identifier("a".to_string()), Token::Op(Operator::NewLine)]);
    assert_eq!(
        parse_string(&render_tokens(&tokens)).unwrap(),
        vec![Token::Identifier("a".to_string())]
    );
}

#[test]
fn render_loses_an_escaped_final_space() {
    let tokens = parse_string("a\\  # note").unwrap();
    assert_eq!(tokens, vec![Token::Identifier("a ".to_string())]);
    assert_eq!(
        parse_string(&render_tokens(&tokens)),
        Err(TokenError::UnexpectedEndOfLine("char after backslash"))
    );
}
