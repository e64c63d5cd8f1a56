use corn::de::{evaluate, insert_at_path, Abort, EnumAccess, Env, Failure};
use corn::lexer::{tokenize, unescape_key};
use corn::messages::{expected_name_list, read_tokens, terminal_name_text, token_text_of};
use corn::parser::{parse_tokens, Expected, Terminal};
use corn::value::Object;
use corn::{Error, Integer, Value};

fn message_of(input: &str) -> String {
    corn::parse(input, &Env::new()).unwrap_err().message()
}

#[test]
fn tokens_are_shown_as_written() {
    assert_eq!(
        message_of(r#"{ a = 1 "x${y}z" }"#),
        "failed to parse input: Unrecognized token `xyz` found at 8:16\nExpected one of \"}\", \"..\" or Key"
    );
    assert_eq!(
        message_of("{ a = 1 -7 }"),
        "failed to parse input: Unrecognized token `-7` found at 8:10\nExpected one of \"}\", \"..\" or Key"
    );
    assert_eq!(
        message_of("{ a = 1 true }"),
        "failed to parse input: Unrecognized token `true` found at 8:12\nExpected one of \"}\", \"..\" or Key"
    );
    assert_eq!(
        message_of("{ a = 1 $v }"),
        "failed to parse input: Unrecognized token `v` found at 8:10\nExpected one of \"}\", \"..\" or Key"
    );
    assert_eq!(
        message_of("{ a b }"),
        "failed to parse input: Unrecognized token `b` found at 4:5\nExpected one of \"=\" or \".\""
    );
    assert_eq!(
        message_of("{ a. = 1 }"),
        "failed to parse input: Unrecognized token `=` found at 5:6\nExpected one of Key"
    );
    assert_eq!(
        message_of("{ .. 1 }"),
        "failed to parse input: Unrecognized token `1` found at 5:6\nExpected one of InputName"
    );
    assert_eq!(
        message_of("{ a = [ } ] }"),
        "failed to parse input: Unrecognized token `}` found at 8:9\nExpected one of \"null\", \"{\", \"[\", \"]\", \"..\", Boolean, Integer, Float, InputName or Literal"
    );
    assert_eq!(
        message_of("let { $a 1 } in { }"),
        "failed to parse input: Unrecognized token `1` found at 9:10\nExpected one of \"=\""
    );
    assert_eq!(
        message_of("let { a } in { }"),
        "failed to parse input: Unrecognized token `a` found at 6:7\nExpected one of \"}\" or InputName"
    );
    assert_eq!(
        message_of("let { } { }"),
        "failed to parse input: Unrecognized token `{` found at 8:9\nExpected one of \"in\""
    );
    assert_eq!(
        message_of("let { } in a"),
        "failed to parse input: Unrecognized token `a` found at 11:12\nExpected one of \"{\""
    );
    assert_eq!(
        message_of("let in"),
        "failed to parse input: Unrecognized token `in` found at 4:6\nExpected one of \"{\""
    );
    assert_eq!(
        message_of("null"),
        "failed to parse input: Unrecognized token `null` found at 0:4\nExpected one of \"let\" or \"{\""
    );
}

#[test]
fn invalid_token_message() {
    assert_eq!(message_of("{ a = 'b }"), "failed to parse input: Encountered invalid token");
}

#[test]
fn reading_tokens_directly() {
    let (toks, err) = tokenize("{ a = [1 2] }");
    let root = parse_tokens(&toks).unwrap();
    assert!(root.inputs.is_empty());
    assert_eq!(root.object.pairs.len(), 1);
    assert!(read_tokens(&toks, err).is_ok());
    let (toks, _) = tokenize("{ a = }");
    assert!(matches!(parse_tokens(&toks), Err((3, Expected::Entry))));
    let (toks, _) = tokenize("{ a = 1 }");
    let e = read_tokens(&toks, Some(corn::error::LexicalError::InvalidToken)).unwrap_err();
    assert!(matches!(e, Error::ParseError(m) if m == "Encountered invalid token"));
}

#[test]
fn expected_names() {
    let names = expected_name_list(Expected::MemberOrEnd);
    assert_eq!(names, vec!["\"}\"", "\"..\"", "Key"]);
    assert!(expected_name_list(Expected::EndOfInput).is_empty());
    assert_eq!(terminal_name_text(Terminal::Spread), "\"..\"");
    let (toks, _) = tokenize("'q' 12 0x10");
    assert_eq!(token_text_of(&toks[0].1), "q");
    assert_eq!(token_text_of(&toks[1].1), "12");
    assert_eq!(token_text_of(&toks[2].1), "16");
}

#[test]
fn indentation_inside_a_character_aborts() {
    let r = evaluate("{ a = \"\n \u{3000}x\n  y\n\" }", &Env::new());
    assert!(matches!(r, Err(Failure::Abort(Abort::IndentationSplitsCharacter))));
}

#[test]
fn keys_are_unescaped_again_when_resolved() {
    assert_eq!(unescape_key("a\\'b"), "a'b");
    assert_eq!(unescape_key("plain"), "plain");
    let (toks, _) = tokenize(r#"'a\\'b'"#);
    assert!(matches!(&toks[0].1, corn::lexer::Token::Key(k) if k == "a\\'b"));
    let v = corn::parse(r#"{ 'a\\'b' = 1 }"#, &Env::new()).unwrap();
    let obj = v.as_object().unwrap();
    assert_eq!(obj.get_index(0).unwrap().0, "a'b");
}

#[test]
fn enum_objects_need_exactly_one_key() {
    let mut obj = Object::new();
    obj.insert("Variant".to_string(), Value::Boolean(true));
    let (name, content) = EnumAccess::new(obj).variant().unwrap();
    assert_eq!(name, "Variant");
    assert_eq!(content.as_boolean(), Some(&true));
    let e = EnumAccess::new(Object::new()).variant().unwrap_err();
    assert_eq!(
        e.message(),
        "failed to deserialize input: Expected enum object with exactly one key, found 0"
    );
    let mut two = Object::new();
    two.insert("a".to_string(), Value::Null);
    two.insert("b".to_string(), Value::Null);
    let e = EnumAccess::new(two).variant().unwrap_err();
    assert!(matches!(e, Error::DeserializationError(m) if m.ends_with("found 2")));
}

#[test]
fn placing_a_value_at_a_key_path_and_reading_it_back() {
    let mut obj = Object::new();
    let path = vec!["a".to_string(), "b".to_string(), "c".to_string()];
    insert_at_path(&mut obj, &path, 0, Value::Integer(Integer::from(5u64))).unwrap();
    let a = obj.get("a").unwrap();
    let c = a.get("b").unwrap().get("c").unwrap();
    assert_eq!(c.as_integer().unwrap().as_u64(), Some(5));
    let e = insert_at_path(&mut obj, &path, 3, Value::Null).unwrap_err();
    assert_eq!(e.message(), "failed to deserialize input: Empty path");
    let bad = vec!["a".to_string(), "b".to_string(), "c".to_string(), "d".to_string()];
    let e = insert_at_path(&mut obj, &bad, 0, Value::Null).unwrap_err();
    assert_eq!(e.message(), "failed to deserialize input: Cannot index into non-object at key: c");
    assert_eq!(obj.len(), 1);
}

#[test]
fn environment_lookup() {
    let env = Env::from_vars(vec![
        ("A".to_string(), "1".to_string()),
        ("A".to_string(), "2".to_string()),
    ]);
    assert_eq!(env.get("A").unwrap(), "1");
    assert!(env.get("B").is_none());
    assert!(Env::new().get("A").is_none());
}
