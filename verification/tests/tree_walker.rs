use project_s::parser::SExp;
use project_s::tree_walker::{walk, Value};

fn sym(s: &str) -> SExp {
    SExp::Symbol(s.to_string())
}

fn string_of(v: &Value) -> Option<&str> {
    match v {
        Value::String(s) => Some(s.as_str()),
        _ => None,
    }
}

#[test]
fn symbols_read_as_strings() {
    assert_eq!(string_of(&walk(&sym("abc"))), Some("abc"));
    assert_eq!(string_of(&walk(&sym("\"hi there\""))), Some("hi there"));
    assert_eq!(string_of(&walk(&sym("\"\""))), Some(""));
    assert_eq!(string_of(&walk(&sym("\""))), Some("\""));
    assert_eq!(string_of(&walk(&sym("\"open"))), Some("\"open"));
}

#[test]
fn struct_fields_in_name_order_later_wins() {
    let e = SExp::List(vec![sym(":struct"), sym(":b"), sym("x"), sym("::a"), sym("\"y\""), sym(":b"), sym("z")]);
    match walk(&e) {
        Value::Object(fields) => {
            let names: Vec<&str> = fields.iter().map(|(k, _)| k.as_str()).collect();
            assert_eq!(names, vec!["a", "b"]);
            assert_eq!(string_of(&fields[0].1), Some("y"));
            assert_eq!(string_of(&fields[1].1), Some("z"));
        }
        other => panic!("expected an object, got {other:?}"),
    }
}

#[test]
fn odd_last_item_is_left_out_and_nesting_works() {
    let inner = SExp::List(vec![sym(":struct"), sym(":k"), sym("v")]);
    let e = SExp::List(vec![sym(":struct"), sym(":in"), inner, sym(":dangling")]);
    match walk(&e) {
        Value::Object(fields) => {
            assert_eq!(fields.len(), 1);
            assert_eq!(fields[0].0, "in");
            match &*fields[0].1 {
                Value::Object(inner) => {
                    assert_eq!(inner.len(), 1);
                    assert_eq!(inner[0].0, "k");
                    assert_eq!(string_of(&inner[0].1), Some("v"));
                }
                other => panic!("expected an object, got {other:?}"),
            }
        }
        other => panic!("expected an object, got {other:?}"),
    }
}

#[test]
fn errors_of_walk() {
    let bad_key = SExp::List(vec![sym(":struct"), SExp::List(vec![]), sym("v")]);
    assert!(matches!(walk(&bad_key), Value::Error(e) if e == "Expected symbol as struct key"));
    let other = SExp::List(vec![sym("foo"), sym("bar")]);
    assert!(matches!(walk(&other), Value::Error(e) if e == "Only (:struct ...) supported for now"));
    assert!(matches!(walk(&SExp::List(vec![])), Value::Error(e) if e == "Only (:struct ...) supported for now"));
    let empty = SExp::List(vec![sym(":struct")]);
    assert!(matches!(walk(&empty), Value::Object(f) if f.is_empty()));
    // A value that is an error stays a field.
    let err_field = SExp::List(vec![sym(":struct"), sym(":e"), SExp::List(vec![])]);
    match walk(&err_field) {
        Value::Object(f) => assert!(matches!(&*f[0].1, Value::Error(_))),
        other => panic!("expected an object, got {other:?}"),
    }
}
