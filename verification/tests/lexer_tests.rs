use corn::error::{IntErrorKind, LexicalError};
use corn::lexer::{tokenize, Lexer, StringPart, Token};

fn spans(input: &str) -> Vec<(usize, usize)> {
    let (toks, err) = tokenize(input);
    assert!(err.is_none());
    toks.iter().map(|(a, _, b)| (*a, *b)).collect()
}

#[test]
fn token_spans_are_byte_offsets() {
    assert_eq!(spans("{ a = 1 }"), vec![(0, 1), (2, 3), (4, 5), (6, 7), (8, 9)]);
    assert_eq!(spans("{ é = \"ü\" }"), vec![(0, 1), (2, 4), (5, 6), (7, 11), (12, 13)]);
}

#[test]
fn punctuation_and_words() {
    let (toks, err) = tokenize("let { $x = null } in { a.b = [ ..$x true false ] }");
    assert!(err.is_none());
    let kinds: Vec<&Token> = toks.iter().map(|t| &t.1).collect();
    assert!(matches!(kinds[0], Token::Let));
    assert!(matches!(kinds[1], Token::OpenBrace));
    assert!(matches!(kinds[2], Token::InputName(n) if n == "x"));
    assert!(matches!(kinds[3], Token::Equals));
    assert!(matches!(kinds[4], Token::Null));
    assert!(matches!(kinds[5], Token::CloseBrace));
    assert!(matches!(kinds[6], Token::In));
    assert!(matches!(kinds[8], Token::Key(k) if k == "a"));
    assert!(matches!(kinds[9], Token::Chain));
    assert!(matches!(kinds[10], Token::Key(k) if k == "b"));
    assert!(matches!(kinds[12], Token::OpenBracket));
    assert!(matches!(kinds[13], Token::Spread));
    assert!(matches!(kinds[14], Token::InputName(n) if n == "x"));
    assert!(matches!(kinds[15], Token::Boolean(true)));
    assert!(matches!(kinds[16], Token::Boolean(false)));
    assert!(matches!(kinds[17], Token::CloseBracket));
    assert!(matches!(kinds[18], Token::CloseBrace));
    assert_eq!(toks.len(), 19);
}

#[test]
fn numbers() {
    let (toks, err) = tokenize("1_000 -42 0x1F 1.5e3 -0.25 7.");
    assert!(err.is_none());
    match &toks[0].1 {
        Token::Integer(i) => {
            assert!(i.is_u64());
            assert_eq!(i.as_u64(), Some(1000));
        }
        _ => panic!("not an integer"),
    }
    match &toks[1].1 {
        Token::Integer(i) => assert_eq!(i.as_i64(), Some(-42)),
        _ => panic!("not an integer"),
    }
    match &toks[2].1 {
        Token::Integer(i) => {
            assert!(!i.is_u64());
            assert_eq!(i.as_i64(), Some(31));
        }
        _ => panic!("not an integer"),
    }
    assert!(matches!(&toks[3].1, Token::Float(f) if f == "1.5e3"));
    assert!(matches!(&toks[4].1, Token::Float(f) if f == "-0.25"));
    assert!(matches!(&toks[5].1, Token::Float(f) if f == "7."));
}

#[test]
fn integer_overflow_is_a_lexical_error() {
    let (toks, err) = tokenize("1 99999999999999999999 2");
    assert_eq!(toks.len(), 1);
    assert_eq!(err, Some(LexicalError::InvalidInteger(IntErrorKind::PosOverflow)));
    let (_, err) = tokenize("-99999999999999999999");
    assert_eq!(err, Some(LexicalError::InvalidInteger(IntErrorKind::NegOverflow)));
    let (_, err) = tokenize("0xFFFFFFFFFFFFFFFF");
    assert_eq!(err, Some(LexicalError::InvalidInteger(IntErrorKind::PosOverflow)));
    let (_, err) = tokenize("0x7FFFFFFFFFFFFFFF");
    assert_eq!(err, None);
    let (toks, err) = tokenize("9223372036854775807");
    assert_eq!(err, None);
    assert!(matches!(&toks[0].1, Token::Integer(i) if i.as_i64() == Some(i64::MAX) && i.is_u64()));
    let (_, err) = tokenize("9223372036854775808");
    assert_eq!(err, Some(LexicalError::InvalidInteger(IntErrorKind::PosOverflow)));
    let (_, err) = tokenize("18446744073709551615");
    assert_eq!(err, Some(LexicalError::InvalidInteger(IntErrorKind::PosOverflow)));
    let (toks, err) = tokenize("-9223372036854775808");
    assert_eq!(err, None);
    assert!(matches!(&toks[0].1, Token::Integer(i) if i.as_i64() == Some(i64::MIN)));
}

#[test]
fn keys() {
    let (toks, err) = tokenize("'a b' 'it\\'s' hello-world");
    assert!(err.is_none());
    assert!(matches!(&toks[0].1, Token::Key(k) if k == "a b"));
    assert!(matches!(&toks[1].1, Token::Key(k) if k == "it's"));
    assert!(matches!(&toks[2].1, Token::Key(k) if k == "hello-world"));
}

#[test]
fn string_literals() {
    let (toks, err) = tokenize(r#""a\nb\t\"c\" \u0041\$\{\}" "x${name}y" """#);
    assert!(err.is_none());
    match &toks[0].1 {
        Token::Literal(parts) => {
            assert_eq!(parts.len(), 1);
            assert!(matches!(&parts[0], StringPart::Literal(s) if s == "a\nb\t\"c\" A${}"));
        }
        _ => panic!("not a literal"),
    }
    match &toks[1].1 {
        Token::Literal(parts) => {
            assert_eq!(parts.len(), 3);
            assert!(matches!(&parts[0], StringPart::Literal(s) if s == "x"));
            assert!(matches!(&parts[1], StringPart::Input(s) if s == "name"));
            assert!(matches!(&parts[2], StringPart::Literal(s) if s == "y"));
        }
        _ => panic!("not a literal"),
    }
    assert!(matches!(&toks[2].1, Token::Literal(parts) if parts.is_empty()));
}

#[test]
fn invalid_unicode_escape_becomes_replacement_character() {
    let (toks, err) = tokenize(r#""\uD800""#);
    assert!(err.is_none());
    assert!(matches!(&toks[0].1, Token::Literal(parts) if matches!(&parts[0], StringPart::Literal(s) if s == "\u{FFFD}")));
}

#[test]
fn comments_and_whitespace_are_skipped() {
    assert_eq!(spans("// c\n{ /* x */ }"), vec![(5, 6), (15, 16)]);
}

#[test]
fn lexer_gives_one_token_at_a_time() {
    let mut lexer = Lexer::new("{ }");
    assert!(matches!(lexer.next_token(), Some(Ok((0, Token::OpenBrace, 1)))));
    assert!(matches!(lexer.next_token(), Some(Ok((2, Token::CloseBrace, 3)))));
    assert!(lexer.next_token().is_none());
}

#[test]
fn longest_match_decides() {
    let (toks, err) = tokenize("0abc true_x ... 1.2.3 nullable");
    assert!(err.is_none());
    assert!(matches!(&toks[0].1, Token::Integer(i) if i.as_u64() == Some(0)));
    assert!(matches!(&toks[1].1, Token::Key(k) if k == "abc"));
    assert!(matches!(&toks[2].1, Token::Key(k) if k == "true_x"));
    assert!(matches!(&toks[3].1, Token::Spread));
    assert!(matches!(&toks[4].1, Token::Chain));
    assert!(matches!(&toks[5].1, Token::Float(f) if f == "1.2"));
    assert!(matches!(&toks[6].1, Token::Chain));
    assert!(matches!(&toks[7].1, Token::Integer(i) if i.as_u64() == Some(3)));
    assert!(matches!(&toks[8].1, Token::Key(k) if k == "nullable"));
    assert_eq!(toks.len(), 9);
}
