use json_parser::{parse, Value};

fn parsed(text: &str) -> Value {
    parse(text.to_string()).unwrap()
}

#[test]
fn member_order_does_not_matter() {
    let a = parsed(r#"{"a":1,"b":[true,{"x":null,"y":"z"}]}"#);
    let b = parsed(r#"{"b":[true,{"y":"z","x":null}],"a":1}"#);
    assert!(a.equivalent(&b));
    assert!(b.equivalent(&a));
    assert_ne!(a, b);
}

#[test]
fn element_order_matters() {
    assert!(!parsed("[1,2]").equivalent(&parsed("[2,1]")));
    assert!(parsed("[1,2]").equivalent(&parsed("[1,2]")));
}

#[test]
fn differing_values_are_not_equivalent() {
    assert!(!parsed(r#"{"a":1}"#).equivalent(&parsed(r#"{"a":2}"#)));
    assert!(!parsed(r#"{"a":1}"#).equivalent(&parsed(r#"{"b":1}"#)));
    assert!(!parsed(r#"{"a":1}"#).equivalent(&parsed(r#"{"a":1,"b":1}"#)));
    assert!(!parsed("null").equivalent(&parsed("false")));
    assert!(!parsed(r#""1""#).equivalent(&parsed("1")));
    assert!(!parsed("[]").equivalent(&parsed("{}")));
}

#[test]
fn numerals_compare_as_written() {
    assert!(parsed("1.5").equivalent(&parsed("1.5")));
    assert!(!parsed("1.5").equivalent(&parsed("15e-1")));
}
