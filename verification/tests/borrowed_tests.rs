use corn::{parse, Env, Value};

fn read(input: &str) -> Value {
    parse(input, &Env::new()).unwrap()
}

fn string_at<'a>(v: &'a Value, index: usize) -> &'a str {
    v.get_index(index).unwrap().as_string().unwrap().as_str()
}

#[test]
fn test_borrowed_array() {
    let test_input = r#"{ foo = ["hello" "world" "test"] }"#;

    let config = read(test_input);
    let foo = config.get("foo").unwrap();

    assert_eq!(foo.len(), 3);
    assert_eq!(string_at(foo, 0), "hello");
    assert_eq!(string_at(foo, 1), "world");
    assert_eq!(string_at(foo, 2), "test");
}
