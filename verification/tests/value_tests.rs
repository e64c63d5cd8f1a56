use corn::value::Object;
use corn::{Integer, Value};

fn text(s: &str) -> Value {
    Value::String(s.to_string())
}

#[test]
fn object_keeps_insertion_order() {
    let mut obj = Object::new();
    assert!(obj.insert("b".to_string(), text("1")).is_none());
    assert!(obj.insert("a".to_string(), text("2")).is_none());
    assert!(obj.insert("c".to_string(), text("3")).is_none());
    let old = obj.insert("a".to_string(), text("4"));
    assert_eq!(old.unwrap().as_string().unwrap().as_str(), "2");
    assert_eq!(obj.len(), 3);
    let keys: Vec<&str> = (0..3).map(|i| obj.get_index(i).unwrap().0.as_str()).collect();
    assert_eq!(keys, vec!["b", "a", "c"]);
    assert_eq!(obj.get("a").unwrap().as_string().unwrap().as_str(), "4");
    assert!(obj.get("d").is_none());
    assert_eq!(obj.index_of("c"), Some(2));
}

#[test]
fn object_extend_overwrites_in_place() {
    let mut a = Object::new();
    a.insert("x".to_string(), text("1"));
    a.insert("y".to_string(), text("2"));
    let mut b = Object::new();
    b.insert("z".to_string(), text("3"));
    b.insert("x".to_string(), text("4"));
    a.extend(b);
    let entries = a.into_entries();
    let keys: Vec<&str> = entries.iter().map(|(k, _)| k.as_str()).collect();
    assert_eq!(keys, vec!["x", "y", "z"]);
    assert_eq!(entries[0].1.as_string().unwrap().as_str(), "4");
}

#[test]
fn emptiness_and_length() {
    assert!(Value::Null.is_empty());
    assert_eq!(Value::Null.len(), 0);
    assert!(text("").is_empty());
    assert_eq!(text("").len(), 0);
    assert!(!text("héllo").is_empty());
    assert_eq!(text("héllo").len(), 6);
    assert!(Value::Array(vec![]).is_empty());
    assert_eq!(Value::Array(vec![Value::Null, Value::Null]).len(), 2);
    assert!(Value::Object(Object::new()).is_empty());
    assert!(!Value::Boolean(false).is_empty());
    assert_eq!(Value::Boolean(true).len(), 0);
    assert!(!Value::Integer(Integer::from(0i64)).is_empty());
    assert!(!Value::Float("1.5".to_string()).is_empty());
}

#[test]
fn kind_predicates_and_accessors() {
    let s = text("a");
    assert!(s.is_string() && !s.is_integer() && !s.is_null());
    assert_eq!(s.as_string().unwrap().as_str(), "a");
    assert!(s.as_integer().is_none());
    let i = Value::Integer(Integer::from(7u64));
    assert!(i.is_integer());
    assert_eq!(i.as_integer().unwrap().as_u64(), Some(7));
    let f = Value::Float("2.50".to_string());
    assert!(f.is_float());
    assert_eq!(f.as_float().unwrap().as_str(), "2.50");
    let b = Value::Boolean(true);
    assert!(b.is_boolean());
    assert_eq!(b.as_boolean(), Some(&true));
    let a = Value::Array(vec![Value::Null]);
    assert!(a.is_array());
    assert_eq!(a.as_array().unwrap().len(), 1);
    assert!(a.get_index(0).unwrap().is_null());
    assert!(a.get_index(1).is_none());
    assert!(a.get("x").is_none());
    let o = Value::Object(Object::new());
    assert!(o.is_object());
    assert_eq!(o.as_object().unwrap().len(), 0);
    assert!(o.get_index(0).is_none());
}

#[test]
fn mutable_accessors_and_takers() {
    let mut s = text("a");
    s.as_string_mut().unwrap().push('b');
    assert_eq!(s.as_string().unwrap().as_str(), "ab");
    assert!(s.as_integer_mut().is_none());
    let mut b = Value::Boolean(false);
    *b.as_boolean_mut().unwrap() = true;
    assert_eq!(b.as_boolean(), Some(&true));
    let mut a = Value::Array(vec![]);
    a.as_array_mut().unwrap().push(Value::Null);
    assert_eq!(a.len(), 1);
    let mut o = Value::Object(Object::new());
    o.as_object_mut().unwrap().insert("k".to_string(), Value::Null);
    assert!(o.get("k").unwrap().is_null());
    let mut f = Value::Float("1.0".to_string());
    f.as_float_mut().unwrap().push('5');
    assert_eq!(f.take_float().unwrap(), "1.05");
    let mut i = Value::Integer(Integer::from(1i64));
    *i.as_integer_mut().unwrap() = Integer::from(2u64);
    assert_eq!(i.take_integer().unwrap().as_i64(), Some(2));
    assert_eq!(text("x").take_string().unwrap(), "x");
    assert!(text("x").take_boolean().is_none());
    assert_eq!(Value::Boolean(true).take_boolean(), Some(true));
    assert_eq!(Value::Array(vec![Value::Null]).take_array().unwrap().len(), 1);
    assert!(Value::Null.take_object().is_none());
    assert_eq!(o.take_object().unwrap().len(), 1);
}
