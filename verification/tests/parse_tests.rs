use corn::de::{Abort, Failure};
use corn::{evaluate, parse, Deserializer, Env, Error, Value};

fn read(input: &str) -> Value {
    parse(input, &Env::new()).unwrap()
}

fn read_err(input: &str) -> Error {
    parse(input, &Env::new()).unwrap_err()
}

fn str_of<'a>(v: &'a Value, key: &str) -> &'a str {
    v.get(key).unwrap().as_string().unwrap().as_str()
}

fn keys(v: &Value) -> Vec<String> {
    let obj = v.as_object().unwrap();
    (0..obj.len()).map(|i| obj.get_index(i).unwrap().0.clone()).collect()
}

#[test]
fn basic_object() {
    let v = read(r#"{ foo = "bar" n = null t = true f = false i = 42 x = -1.5 }"#);
    assert_eq!(str_of(&v, "foo"), "bar");
    assert!(v.get("n").unwrap().is_null());
    assert_eq!(v.get("t").unwrap().as_boolean(), Some(&true));
    assert_eq!(v.get("f").unwrap().as_boolean(), Some(&false));
    assert_eq!(v.get("i").unwrap().as_integer().unwrap().as_u64(), Some(42));
    assert_eq!(v.get("x").unwrap().as_float().unwrap().as_str(), "-1.5");
    assert_eq!(keys(&v), vec!["foo", "n", "t", "f", "i", "x"]);
}

#[test]
fn empty_object() {
    let v = read("{}");
    assert!(v.is_object());
    assert!(v.is_empty());
}

#[test]
fn chained_keys_build_nested_objects() {
    let v = read("{ a.b.c = 1 a.b.d = 2 a.e = 3 }");
    let b = v.get("a").unwrap().get("b").unwrap();
    assert_eq!(b.get("c").unwrap().as_integer().unwrap().as_i64(), Some(1));
    assert_eq!(b.get("d").unwrap().as_integer().unwrap().as_i64(), Some(2));
    assert_eq!(keys(v.get("a").unwrap()), vec!["b", "e"]);
}

#[test]
fn chained_key_through_a_non_object_fails() {
    let e = read_err("{ a = 1 a.b = 2 }");
    assert_eq!(e.message(), "failed to deserialize input: Cannot index into non-object at key: a");
}

#[test]
fn quoted_keys() {
    let v = read(r#"{ 'a.b' = 1 'it\'s' = 2 }"#);
    assert!(v.get("a.b").is_some());
    assert!(v.get("it's").is_some());
}

#[test]
fn inputs_and_last_declaration_wins() {
    let v = read(r#"let { $x = "one" $y = $x $x = "two" } in { a = $x b = $y }"#);
    assert_eq!(str_of(&v, "a"), "two");
    assert_eq!(str_of(&v, "b"), "two");
}

#[test]
fn interpolation() {
    let v = read(r#"let { $name = "world" } in { greeting = "hello ${name}!" }"#);
    assert_eq!(str_of(&v, "greeting"), "hello world!");
}

#[test]
fn interpolating_a_non_string_fails() {
    let e = read_err(r#"let { $n = 1 } in { a = "${n}" }"#);
    assert!(matches!(e, Error::InvalidInterpolationError));
    assert_eq!(e.message(), "attempted to interpolate a non-string type into a string");
}

#[test]
fn object_spread_overwrites_in_place() {
    let v = read("let { $o = { x = 1 y = 2 } } in { y = 0 ..$o z = 3 }");
    assert_eq!(keys(&v), vec!["y", "x", "z"]);
    assert_eq!(v.get("y").unwrap().as_integer().unwrap().as_i64(), Some(2));
}

#[test]
fn array_spread() {
    let v = read("let { $a = [1 2] } in { b = [0 ..$a 3] }");
    let b = v.get("b").unwrap().as_array().unwrap();
    let nums: Vec<i64> = b.iter().map(|x| x.as_integer().unwrap().as_i64().unwrap()).collect();
    assert_eq!(nums, vec![0, 1, 2, 3]);
}

#[test]
fn spreading_the_wrong_kind_fails() {
    let e = read_err("let { $a = [1] } in { ..$a }");
    assert!(matches!(e, Error::InvalidSpreadError));
    let e = read_err("let { $o = { x = 1 } } in { a = [ ..$o ] }");
    assert!(matches!(e, Error::InvalidSpreadError));
    assert_eq!(e.message(), "attempted to spread a type that differs from its containing type");
}

#[test]
fn unknown_input_fails() {
    let e = read_err("{ a = $nope }");
    assert!(matches!(&e, Error::InputResolveError(n) if n == "nope"));
    assert_eq!(e.message(), "failed to resolve referenced input `nope`");
}

#[test]
fn environment_inputs() {
    let env = Env::from_vars(vec![("HOME".to_string(), "/root".to_string())]);
    let v = parse("{ a = $env_HOME b = \"${env_HOME}/x\" }", &env).unwrap();
    assert_eq!(str_of(&v, "a"), "/root");
    assert_eq!(str_of(&v, "b"), "/root/x");
    let v = parse("let { $env_NOPE = \"fallback\" } in { a = $env_NOPE }", &env).unwrap();
    assert_eq!(str_of(&v, "a"), "fallback");
    let e = parse("{ a = $env_NOPE }", &env).unwrap_err();
    assert!(matches!(&e, Error::InputResolveError(n) if n == "env_NOPE"));
}

#[test]
fn multiline_strings_are_dedented() {
    let v = read("{ a = \"\n    line1\n      line2\n  \" }");
    assert_eq!(str_of(&v, "a"), "line1\n  line2\n");
    let v = read("{ a = \"no newline first\n  kept\" }");
    assert_eq!(str_of(&v, "a"), "no newline first\n  kept");
}

#[test]
fn unused_cyclic_inputs_are_harmless() {
    let v = read("let { $a = $a } in { x = 1 }");
    assert_eq!(v.get("x").unwrap().as_integer().unwrap().as_i64(), Some(1));
}

#[test]
fn cyclic_inputs_abort() {
    let r = evaluate("let { $a = $b $b = $a } in { x = $a }", &Env::new());
    assert!(matches!(r, Err(Failure::Abort(Abort::CyclicInput(name))) if name == "a"));
}

#[test]
fn unexpected_token_message() {
    let e = read_err("{ foo = }");
    assert_eq!(
        e.message(),
        "failed to parse input: Unrecognized token `}` found at 8:9\nExpected one of \"null\", \"{\", \"[\", Boolean, Integer, Float, InputName or Literal"
    );
}

#[test]
fn unexpected_end_message() {
    let e = read_err("{ foo = 1");
    assert_eq!(
        e.message(),
        "failed to parse input: Unrecognized EOF found at 9\nExpected one of \"}\", \"..\" or Key"
    );
    let e = read_err("");
    assert_eq!(
        e.message(),
        "failed to parse input: Unrecognized EOF found at 0\nExpected one of \"let\" or \"{\""
    );
}

#[test]
fn extra_token_message() {
    let e = read_err("{} {");
    assert_eq!(e.message(), "failed to parse input: Unrecognized token `{` found at 3:4");
}

#[test]
fn lexical_error_message() {
    let e = read_err("{ a = 99999999999999999999 }");
    assert_eq!(
        e.message(),
        "failed to parse input: Integer parsing error: number too large to fit in target type"
    );
}

#[test]
fn syntax_error_before_a_lexical_error_comes_first() {
    let e = read_err("{ ] 99999999999999999999");
    assert_eq!(
        e.message(),
        "failed to parse input: Unrecognized token `]` found at 2:3\nExpected one of \"}\", \"..\" or Key"
    );
}

#[test]
fn deserializer_holds_the_value() {
    let d = Deserializer::from_str("{ a = 1 }", &Env::new()).unwrap();
    assert!(d.value().get("a").is_some());
    let v = Deserializer::parse("{ a = 1 }", &Env::new()).unwrap();
    assert!(v.is_object());
    assert_eq!(d.into_value().len(), 1);
}

#[test]
fn integers_are_signed_64_bit() {
    let e = read_err("{ a = 18446744073709551615 }");
    assert_eq!(
        e.message(),
        "failed to parse input: Integer parsing error: number too large to fit in target type"
    );
    let v = read("{ a = 9223372036854775807 b = -9223372036854775808 c = 0x7FFFFFFFFFFFFFFF }");
    for key in ["a", "b", "c"] {
        assert!(v.get(key).unwrap().as_integer().unwrap().is_i64());
    }
}

#[test]
fn spreading_an_undeclared_input_fails() {
    let e = read_err("{ ..$x }");
    assert!(matches!(&e, Error::InputResolveError(n) if n == "x"));
    let env = Env::from_vars(vec![("X".to_string(), "v".to_string())]);
    let e = parse("{ ..$env_X }", &env).unwrap_err();
    assert!(matches!(&e, Error::InputResolveError(n) if n == "env_X"));
}

#[test]
fn environment_comes_before_declarations() {
    let env = Env::from_vars(vec![("X".to_string(), "from env".to_string())]);
    let v = parse("let { $env_X = \"declared\" } in { a = $env_X }", &env).unwrap();
    assert_eq!(str_of(&v, "a"), "from env");
}
