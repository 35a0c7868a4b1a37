use pcf::lex::{
    is_identifier, is_numeric_or_symbol, is_whitespace, lex, CharClass, Lexeme, LexemeKind,
};
use pcf::utils::{ErrorKind, LexingError, Location, Source, Span};

fn span(l1: usize, c1: usize, l2: usize, c2: usize) -> Span {
    Span::new(Location::new(l1, c1), Location::new(l2, c2))
}

fn kinds(text: &str) -> Vec<LexemeKind> {
    let src = Source::new("mem", text.to_string());
    let stream = lex(&src).expect("the text tokenizes");
    stream.into_iter().map(|l| l.kind).collect()
}

fn lexemes(text: &str) -> Vec<Lexeme> {
    let src = Source::new("mem", text.to_string());
    let stream = lex(&src).expect("the text tokenizes");
    stream.into_iter().collect()
}

fn failure(text: &str) -> (LexingError, Span) {
    let src = Source::new("mem", text.to_string());
    let error = lex(&src).expect_err("the text does not tokenize");
    assert_eq!(error.src, &src);
    match error.kind {
        ErrorKind::Lexing(reason) => (reason, error.span),
    }
}

#[test]
fn each_symbol_alone_is_one_lexeme() {
    let table = vec![
        ("=", LexemeKind::Equal),
        (",", LexemeKind::Comma),
        ("[", LexemeKind::LBrack),
        ("]", LexemeKind::RBrack),
        ("{", LexemeKind::LBrace),
        ("}", LexemeKind::RBrace),
    ];
    for (text, kind) in table {
        assert_eq!(lexemes(text), vec![Lexeme::new(kind, span(1, 1, 1, 2))]);
    }
}

#[test]
fn escaped_quote_stays_in_the_string() {
    assert_eq!(
        lexemes("\"a\\\"b\""),
        vec![Lexeme::new(LexemeKind::String("a\\\"b".to_string()), span(1, 1, 1, 7))]
    );
}

#[test]
fn plain_string_holds_its_body() {
    assert_eq!(
        lexemes("\"hi\""),
        vec![Lexeme::new(LexemeKind::String("hi".to_string()), span(1, 1, 1, 5))]
    );
    assert_eq!(kinds("\"\""), vec![LexemeKind::String(String::new())]);
}

#[test]
fn quote_behind_backslash_never_closes() {
    assert_eq!(
        failure("\"a\\\\\""),
        (LexingError::UnterminatedString, span(1, 1, 1, 6))
    );
}

#[test]
fn open_string_is_unterminated() {
    assert_eq!(failure("\"abc"), (LexingError::UnterminatedString, span(1, 1, 1, 5)));
    assert_eq!(failure("\""), (LexingError::UnterminatedString, span(1, 1, 1, 2)));
}

#[test]
fn string_may_span_lines() {
    assert_eq!(
        lexemes("\"a\nbc\" x"),
        vec![
            Lexeme::new(LexemeKind::String("a\nbc".to_string()), span(1, 1, 2, 4)),
            Lexeme::new(LexemeKind::Ident("x".to_string()), span(2, 5, 2, 6)),
        ]
    );
    assert_eq!(failure("\"a\nb"), (LexingError::UnterminatedString, span(1, 1, 2, 2)));
}

#[test]
fn string_with_wide_characters() {
    assert_eq!(
        lexemes("\"h\u{e9}\u{1F600}\""),
        vec![Lexeme::new(LexemeKind::String("h\u{e9}\u{1F600}".to_string()), span(1, 1, 1, 6))]
    );
}

#[test]
fn integers() {
    assert_eq!(kinds("42"), vec![LexemeKind::Integer(42)]);
    assert_eq!(kinds("-7"), vec![LexemeKind::Integer(-7)]);
    assert_eq!(kinds("+5"), vec![LexemeKind::Integer(5)]);
    assert_eq!(kinds("0"), vec![LexemeKind::Integer(0)]);
    assert_eq!(kinds("-0"), vec![LexemeKind::Integer(0)]);
    assert_eq!(kinds("007"), vec![LexemeKind::Integer(7)]);
    assert_eq!(kinds("00000000000000000000000012"), vec![LexemeKind::Integer(12)]);
    assert_eq!(lexemes("1234"), vec![Lexeme::new(LexemeKind::Integer(1234), span(1, 1, 1, 5))]);
}

#[test]
fn integer_limits() {
    assert_eq!(kinds("9223372036854775807"), vec![LexemeKind::Integer(i64::MAX)]);
    assert_eq!(kinds("-9223372036854775808"), vec![LexemeKind::Integer(i64::MIN)]);
    assert_eq!(kinds("-9223372036854775807"), vec![LexemeKind::Integer(-i64::MAX)]);
    assert_eq!(
        failure("9223372036854775808"),
        (LexingError::MalformedNumber, span(1, 1, 1, 20))
    );
    assert_eq!(
        failure("-9223372036854775809"),
        (LexingError::MalformedNumber, span(1, 1, 1, 21))
    );
    assert_eq!(failure("99999999999999999999999999").0, LexingError::MalformedNumber);
    assert_eq!(failure("18446744073709551616").0, LexingError::MalformedNumber);
    assert_eq!(failure("18446744073709551658").0, LexingError::MalformedNumber);
}

#[test]
fn integers_agree_with_the_standard_parser() {
    let texts = vec![
        "0", "1", "-1", "+1", "10", "99", "100", "-100", "+0012", "4611686018427387904",
        "9223372036854775806", "9223372036854775807", "9223372036854775808",
        "-9223372036854775807", "-9223372036854775808", "-9223372036854775809",
        "92233720368547758070", "-", "+", "123456789012345678901234567890",
    ];
    for text in texts {
        let src = Source::new("mem", text.to_string());
        match text.parse::<i64>() {
            Ok(value) => {
                let stream = lex(&src).expect("an integer");
                assert_eq!(stream.len(), 1);
                assert_eq!(stream[0].kind, LexemeKind::Integer(value));
            }
            Err(_) => {
                let error = lex(&src).expect_err("no integer");
                assert_eq!(error.kind, ErrorKind::Lexing(LexingError::MalformedNumber));
            }
        }
    }
}

#[test]
fn floats_keep_their_text() {
    assert_eq!(kinds("3.14"), vec![LexemeKind::Float("3.14".to_string())]);
    assert_eq!(kinds("-2.5"), vec![LexemeKind::Float("-2.5".to_string())]);
    assert_eq!(kinds(".5"), vec![LexemeKind::Float(".5".to_string())]);
    assert_eq!(kinds("5."), vec![LexemeKind::Float("5.".to_string())]);
    assert_eq!(kinds("+.5"), vec![LexemeKind::Float("+.5".to_string())]);
    assert_eq!(
        lexemes("3.14"),
        vec![Lexeme::new(LexemeKind::Float("3.14".to_string()), span(1, 1, 1, 5))]
    );
}

#[test]
fn float_text_reads_as_the_number() {
    for (text, value) in vec![("3.14", 3.14f64), ("2.5", 2.5), ("-0.25", -0.25), (".5", 0.5), ("7.", 7.0)] {
        match &kinds(text)[0] {
            LexemeKind::Float(literal) => assert_eq!(literal.parse::<f64>().unwrap(), value),
            other => panic!("not a float: {:?}", other),
        }
    }
}

#[test]
fn floats_agree_with_the_standard_parser() {
    let texts = vec![".", "-.", "+.", "1.", ".1", "-.1", "+1.", "-1.5", "0.0", "12.375"];
    for text in texts {
        let src = Source::new("mem", text.to_string());
        match text.parse::<f64>() {
            Ok(_) => {
                let stream = lex(&src).expect("a float");
                assert_eq!(stream.len(), 1);
                assert_eq!(stream[0].kind, LexemeKind::Float(text.to_string()));
            }
            Err(_) => {
                let error = lex(&src).expect_err("no float");
                assert_eq!(error.kind, ErrorKind::Lexing(LexingError::MalformedNumber));
            }
        }
    }
}

#[test]
fn second_point_is_malformed() {
    assert_eq!(failure("1.2.3"), (LexingError::MalformedNumber, span(1, 1, 1, 4)));
    assert_eq!(failure(".."), (LexingError::MalformedNumber, span(1, 1, 1, 2)));
    assert_eq!(failure("x = 1..2"), (LexingError::MalformedNumber, span(1, 5, 1, 7)));
}

#[test]
fn bare_sign_or_point_is_malformed() {
    assert_eq!(failure("-"), (LexingError::MalformedNumber, span(1, 1, 1, 2)));
    assert_eq!(failure("+"), (LexingError::MalformedNumber, span(1, 1, 1, 2)));
    assert_eq!(failure("."), (LexingError::MalformedNumber, span(1, 1, 1, 2)));
    assert_eq!(failure("-."), (LexingError::MalformedNumber, span(1, 1, 1, 3)));
    assert_eq!(failure("- 1"), (LexingError::MalformedNumber, span(1, 1, 1, 2)));
}

#[test]
fn keywords_and_identifiers() {
    assert_eq!(kinds("true"), vec![LexemeKind::Bool(true)]);
    assert_eq!(kinds("false"), vec![LexemeKind::Bool(false)]);
    assert_eq!(kinds("foo_1"), vec![LexemeKind::Ident("foo_1".to_string())]);
    assert_eq!(kinds("True"), vec![LexemeKind::Ident("True".to_string())]);
    assert_eq!(kinds("truex"), vec![LexemeKind::Ident("truex".to_string())]);
    assert_eq!(kinds("tru"), vec![LexemeKind::Ident("tru".to_string())]);
    assert_eq!(kinds("falsy"), vec![LexemeKind::Ident("falsy".to_string())]);
    assert_eq!(kinds("_"), vec![LexemeKind::Ident("_".to_string())]);
    assert_eq!(
        lexemes("foo_1"),
        vec![Lexeme::new(LexemeKind::Ident("foo_1".to_string()), span(1, 1, 1, 6))]
    );
}

#[test]
fn digits_before_letters_are_a_number() {
    assert_eq!(
        kinds("1abc"),
        vec![LexemeKind::Integer(1), LexemeKind::Ident("abc".to_string())]
    );
}

#[test]
fn comment_then_identifier() {
    assert_eq!(
        lexemes("# comment\nx"),
        vec![Lexeme::new(LexemeKind::Ident("x".to_string()), span(2, 1, 2, 2))]
    );
}

#[test]
fn blanks_and_comments_give_nothing() {
    assert_eq!(kinds(""), vec![]);
    assert_eq!(kinds("   \t\r\n  \n"), vec![]);
    assert_eq!(kinds("# only a comment"), vec![]);
    assert_eq!(kinds("# one\n# two\n"), vec![]);
    assert_eq!(kinds("\u{a0}\u{2003}\u{3000}"), vec![]);
    assert_eq!(kinds("x # tail"), vec![LexemeKind::Ident("x".to_string())]);
}

#[test]
fn positions_after_blanks() {
    assert_eq!(
        lexemes("  a\n\n\tb # c\n=  "),
        vec![
            Lexeme::new(LexemeKind::Ident("a".to_string()), span(1, 3, 1, 4)),
            Lexeme::new(LexemeKind::Ident("b".to_string()), span(3, 2, 3, 3)),
            Lexeme::new(LexemeKind::Equal, span(4, 1, 4, 2)),
        ]
    );
}

#[test]
fn spans_never_run_backwards() {
    let all = lexemes("a = [1, 2.5,\n \"x\ny\"] # c\n{ b = true }\n");
    assert_eq!(all.len(), 14);
    for lexeme in &all {
        assert!(lexeme.span.begin <= lexeme.span.end);
        assert!(lexeme.span.begin.line >= 1 && lexeme.span.begin.col >= 1);
    }
    for pair in all.windows(2) {
        assert!(pair[0].span.end <= pair[1].span.begin);
    }
}

#[test]
fn unknown_character_is_unrecognized() {
    assert_eq!(failure("@"), (LexingError::UnrecognizedToken, span(1, 1, 1, 2)));
    assert_eq!(failure("a @"), (LexingError::UnrecognizedToken, span(1, 3, 1, 4)));
    assert_eq!(failure("\n\u{e9}"), (LexingError::UnrecognizedToken, span(2, 1, 2, 2)));
    assert_eq!(failure("x = 1 ; y").0, LexingError::UnrecognizedToken);
}

#[test]
fn first_error_wins() {
    assert_eq!(failure("@ \"open"), (LexingError::UnrecognizedToken, span(1, 1, 1, 2)));
    assert_eq!(failure("1.2.3 @").0, LexingError::MalformedNumber);
}

#[test]
fn assignment_of_a_list() {
    assert_eq!(
        lexemes("x = [1, 2.5, \"hi\"]"),
        vec![
            Lexeme::new(LexemeKind::Ident("x".to_string()), span(1, 1, 1, 2)),
            Lexeme::new(LexemeKind::Equal, span(1, 3, 1, 4)),
            Lexeme::new(LexemeKind::LBrack, span(1, 5, 1, 6)),
            Lexeme::new(LexemeKind::Integer(1), span(1, 6, 1, 7)),
            Lexeme::new(LexemeKind::Comma, span(1, 7, 1, 8)),
            Lexeme::new(LexemeKind::Float("2.5".to_string()), span(1, 9, 1, 12)),
            Lexeme::new(LexemeKind::Comma, span(1, 12, 1, 13)),
            Lexeme::new(LexemeKind::String("hi".to_string()), span(1, 14, 1, 18)),
            Lexeme::new(LexemeKind::RBrack, span(1, 18, 1, 19)),
        ]
    );
}

#[test]
fn identifier_class_is_ascii() {
    for code in 0u32..=0x10FFFF {
        if let Some(c) = char::from_u32(code) {
            assert_eq!(is_identifier(c), c.is_ascii_alphanumeric() || c == '_');
            assert_eq!(
                is_numeric_or_symbol(c),
                c.is_ascii_digit() || c == '-' || c == '+' || c == '.'
            );
            assert_eq!(CharClass::Digit.contains(c), c.is_ascii_digit());
            assert_eq!(CharClass::Word.contains(c), is_identifier(c));
            assert_eq!(CharClass::Comment.contains(c), c != '\n');
        }
    }
}

#[test]
fn white_space_is_that_of_unicode() {
    for code in 0u32..=0x10FFFF {
        if let Some(c) = char::from_u32(code) {
            assert_eq!(is_whitespace(c), c.is_whitespace());
        }
    }
}
