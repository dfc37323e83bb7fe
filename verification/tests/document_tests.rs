//! A whole nested document: an object holding a string, a number, a
//! boolean, an array of numbers, and a nested object, built through
//! more than two levels of recursion.

use p_json::builder::build;
use p_json::number::JsonNumber;
use p_json::tree::Node;
use p_json::tree::Rule;
use p_json::value::JsonValue;

fn leaf(rule: Rule, text: &str) -> Node {
    Node { rule, text: text.to_string(), children: Vec::new() }
}

fn pair(key: &str, value: Node) -> Node {
    Node {
        rule: Rule::Pair,
        text: String::new(),
        children: vec![leaf(Rule::Chars, key), value],
    }
}

fn wrap(inner: Node) -> Node {
    Node { rule: Rule::Value, text: String::new(), children: vec![inner] }
}

fn num(text: &str) -> Node {
    wrap(leaf(Rule::Number, text))
}

fn n(neg: bool, int_digits: Vec<u8>, frac_digits: Vec<u8>) -> JsonValue {
    JsonValue::Number(JsonNumber { neg, int_digits, frac_digits })
}

fn s(text: &str) -> JsonValue {
    JsonValue::String(text.to_string())
}

#[test]
fn nested_document_builds_every_field() {
    let address = Node {
        rule: Rule::Object,
        text: String::new(),
        children: vec![
            pair("city", wrap(leaf(Rule::Chars, "New York"))),
            pair("zip", num("10001")),
        ],
    };
    let marks = Node {
        rule: Rule::Array,
        text: String::new(),
        children: vec![num("90.0"), num("-80.0"), num("85.1")],
    };
    let doc = Node {
        rule: Rule::Object,
        text: String::new(),
        children: vec![
            pair("name", wrap(leaf(Rule::Chars, "John Doe"))),
            pair("age", num("30")),
            pair("is_student", wrap(leaf(Rule::Bool, "false"))),
            pair("marks", wrap(marks)),
            pair("address", wrap(address)),
        ],
    };

    let built = build(&doc).unwrap();
    let expected = JsonValue::Object(vec![
        ("name".to_string(), s("John Doe")),
        ("age".to_string(), n(false, vec![3, 0], vec![])),
        ("is_student".to_string(), JsonValue::Bool(false)),
        (
            "marks".to_string(),
            JsonValue::Array(vec![
                n(false, vec![9, 0], vec![]),
                n(true, vec![8, 0], vec![]),
                n(false, vec![8, 5], vec![1]),
            ]),
        ),
        (
            "address".to_string(),
            JsonValue::Object(vec![
                ("city".to_string(), s("New York")),
                ("zip".to_string(), n(false, vec![1, 0, 0, 0, 1], vec![])),
            ]),
        ),
    ]);
    assert_eq!(built, expected);
}
