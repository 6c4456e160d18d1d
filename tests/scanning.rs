use not_oblivion_xml::{parse_string, Operator, Token, TokenError};

fn ident(s: &str) -> Token {
    Token::Identifier(s.to_string())
}

fn num(s: &str) -> Token {
    Token::Number(s.to_string())
}

fn op(o: Operator) -> Token {
    Token::Op(o)
}

#[test]
fn general_lexing_comment() {
    assert_eq!(parse_string("#This line should be empty.").unwrap(), vec![]);
}

#[test]
fn general_lexing_selector() {
    let expected = vec![
        op(Operator::Dollar),
        ident("me"),
        op(Operator::LeftAngle),
        ident("child"),
        op(Operator::RightAngle),
        op(Operator::Period),
        ident("width"),
        op(Operator::Minus),
        num("0.0"),
    ];
    assert_eq!(parse_string("$me<child>.width-0.0").unwrap(), expected);
}

#[test]
fn general_lexing_brackets() {
    let expected = vec![
        op(Operator::LeftBracket),
        op(Operator::Slash),
        op(Operator::Asterisk),
        op(Operator::Minus),
        op(Operator::Plus),
        op(Operator::Mod),
        op(Operator::RightBracket),
    ];
    assert_eq!(parse_string("( / * - + % )").unwrap(), expected);
}

#[test]
fn general_lexing_operators() {
    let expected = vec![
        num("0"),
        op(Operator::EqualsSign),
        num("1"),
        op(Operator::EqualTo),
        num("2"),
        op(Operator::RightAngle),
        num("3"),
        op(Operator::GreaterThanEqual),
        num("4"),
        op(Operator::LeftAngle),
        num("5"),
        op(Operator::LessThanEqual),
        num("6"),
        op(Operator::Bang),
        num("7.0"),
        op(Operator::NotEqual),
    ];
    assert_eq!(parse_string("0 = 1 == 2 > 3 >= 4 < 5 <= 6 ! 7.0 !=").unwrap(), expected);
}

#[test]
fn operator_disambiguation() {
    let expected = vec![
        num("0"),
        op(Operator::EqualsSign),
        num("1"),
        op(Operator::EqualTo),
        num("2"),
        op(Operator::RightAngle),
        num("3"),
        op(Operator::GreaterThanEqual),
        num("4"),
        op(Operator::LeftAngle),
        num("5"),
        op(Operator::LessThanEqual),
        num("6"),
        op(Operator::Bang),
        num("7"),
        op(Operator::NotEqual),
        num("8.0"),
    ];
    assert_eq!(parse_string("0 = 1 == 2 > 3 >= 4 < 5 <= 6 ! 7 != 8.0").unwrap(), expected);
}

#[test]
fn lone_operators_before_end() {
    assert_eq!(parse_string("=").unwrap(), vec![op(Operator::EqualsSign)]);
    assert_eq!(parse_string("<").unwrap(), vec![op(Operator::LeftAngle)]);
    assert_eq!(parse_string(">").unwrap(), vec![op(Operator::RightAngle)]);
    assert_eq!(parse_string("!").unwrap(), vec![op(Operator::Bang)]);
    assert_eq!(parse_string("a !").unwrap(), vec![ident("a"), op(Operator::Bang)]);
}

#[test]
fn comment_only_scans_to_nothing() {
    assert_eq!(parse_string("# This line should be empty.").unwrap(), vec![]);
    assert_eq!(parse_string("   \n\t\n").unwrap(), vec![]);
}

#[test]
fn trailing_backslash_is_an_error() {
    assert_eq!(
        parse_string("abc\\"),
        Err(TokenError::UnexpectedEndOfLine("char after backslash"))
    );
    assert_eq!(
        parse_string("\\"),
        Err(TokenError::UnexpectedEndOfLine("char after backslash"))
    );
    assert_eq!(
        parse_string("\"ab\\"),
        Err(TokenError::UnexpectedEndOfLine("char after backslash"))
    );
}

#[test]
fn unterminated_string_literal() {
    assert_eq!(
        parse_string("\"abc"),
        Err(TokenError::UnterminatedStringLiteral("abc".to_string()))
    );
}

#[test]
fn mixed_leading_whitespace() {
    assert_eq!(parse_string(" \tx"), Err(TokenError::InconsistentWhitespace));
    assert_eq!(parse_string("\t x"), Err(TokenError::InconsistentWhitespace));
    assert_eq!(parse_string("a\n  b\n\t\tc"), Err(TokenError::InconsistentWhitespace));
}

#[test]
fn indent_not_a_multiple_of_the_step() {
    assert_eq!(parse_string("a\n  b\n   c"), Err(TokenError::InconsistentWhitespaceCount));
}

#[test]
fn invalid_character() {
    assert_eq!(parse_string("a ; b"), Err(TokenError::InvalidCharacter(';')));
    assert_eq!(parse_string("[x]"), Err(TokenError::InvalidCharacter('[')));
}

#[test]
fn string_literals_decode_escapes() {
    assert_eq!(
        parse_string("'it\\'s' \"a\\\"b\" \"x\\\\\"").unwrap(),
        vec![
            Token::StringLiteral("it's".to_string()),
            Token::StringLiteral("a\"b".to_string()),
            Token::StringLiteral("x\\".to_string()),
        ]
    );
    assert_eq!(
        parse_string("\"it's\"").unwrap(),
        vec![Token::StringLiteral("it's".to_string())]
    );
}

#[test]
fn numbers_take_one_fraction() {
    assert_eq!(
        parse_string("1.2.3").unwrap(),
        vec![num("1.2"), op(Operator::Period), num("3")]
    );
    assert_eq!(parse_string("7.").unwrap(), vec![num("7.")]);
    assert_eq!(parse_string("1..2").unwrap(), vec![num("1."), op(Operator::Period), num("2")]);
}

#[test]
fn identifiers_take_escapes_and_unicode() {
    assert_eq!(parse_string("a\\-b").unwrap(), vec![ident("a-b")]);
    assert_eq!(parse_string("\\1x").unwrap(), vec![ident("1x")]);
    assert_eq!(parse_string("_a1 été").unwrap(), vec![ident("_a1"), ident("été")]);
}

#[test]
fn indentation_blocks() {
    let nl = op(Operator::NewLine);
    assert_eq!(
        parse_string("a\n  b\n    c\nd").unwrap(),
        vec![
            ident("a"),
            nl.clone(),
            Token::Indent,
            ident("b"),
            nl.clone(),
            Token::Indent,
            ident("c"),
            nl.clone(),
            Token::Dedent,
            Token::Dedent,
            ident("d"),
        ]
    );
    assert_eq!(
        parse_string("a\n\tb").unwrap(),
        vec![ident("a"), nl.clone(), Token::Indent, ident("b"), Token::Dedent]
    );
}

#[test]
fn blank_and_comment_lines_keep_indentation() {
    let nl = op(Operator::NewLine);
    assert_eq!(
        parse_string("a\n  b\n\n# note\n  c").unwrap(),
        vec![
            ident("a"),
            nl.clone(),
            Token::Indent,
            ident("b"),
            nl.clone(),
            nl.clone(),
            nl.clone(),
            ident("c"),
            Token::Dedent,
        ]
    );
}

#[test]
fn indent_jump_opens_one_level_per_step() {
    let tokens = parse_string("a\n  b\n      c\nd").unwrap();
    let indents = tokens.iter().filter(|t| **t == Token::Indent).count();
    let dedents = tokens.iter().filter(|t| **t == Token::Dedent).count();
    assert_eq!(indents, 3);
    assert_eq!(dedents, 3);
}

#[test]
fn indents_and_dedents_balance() {
    for text in ["a\n  b\n    c", "x\n\ty\n\t\tz\n\tw", "  a\n  b", "a\n b\n  c\n b\nd"] {
        let tokens = parse_string(text).unwrap();
        let indents = tokens.iter().filter(|t| **t == Token::Indent).count();
        let dedents = tokens.iter().filter(|t| **t == Token::Dedent).count();
        assert_eq!(indents, dedents, "{text}");
    }
}

#[test]
fn trailing_whitespace_changes_nothing() {
    for text in ["a = 1", "$me<child>.width", "a\n  b", "\"q\" 2.5"] {
        let plain = parse_string(text);
        for tail in [" ", "\t", " \t \r", "\x0b\x0c"] {
            assert_eq!(parse_string(&format!("{text}{tail}")), plain);
        }
    }
}
