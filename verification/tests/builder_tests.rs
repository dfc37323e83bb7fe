//! The builder on grammar-shaped parse trees: every rule label, every
//! error, and the recursive cases.

use p_json::builder::build;
use p_json::builder::BuildError;
use p_json::number::JsonNumber;
use p_json::tree::Node;
use p_json::tree::Rule;
use p_json::value::JsonValue;

fn leaf(rule: Rule, text: &str) -> Node {
    Node { rule, text: text.to_string(), children: Vec::new() }
}

fn node(rule: Rule, text: &str, children: Vec<Node>) -> Node {
    Node { rule, text: text.to_string(), children }
}

/// A `value` wrapper node around one concrete node, as the grammar
/// produces for each array element and object entry value.
fn value_node(text: &str, inner: Node) -> Node {
    node(Rule::Value, text, vec![inner])
}

/// Renders a built number back to its canonical literal and reads it as
/// a machine double, the way an embedder would display it.
fn num_to_f64(n: &JsonNumber) -> f64 {
    let mut s = String::new();
    if n.neg {
        s.push('-');
    }
    for d in &n.int_digits {
        s.push((b'0' + d) as char);
    }
    if !n.frac_digits.is_empty() {
        s.push('.');
        for d in &n.frac_digits {
            s.push((b'0' + d) as char);
        }
    }
    s.parse().unwrap()
}

fn built_number(text: &str) -> JsonNumber {
    match build(&leaf(Rule::Number, text)) {
        Ok(JsonValue::Number(n)) => n,
        other => panic!("expected a number, got {:?}", other),
    }
}

#[test]
fn pest_parse_null_should_work() {
    let parsed = leaf(Rule::Null, "null");
    assert_eq!(build(&parsed).unwrap(), JsonValue::Null);
}

#[test]
fn pest_parse_bool_should_work() {
    let parsed = leaf(Rule::Bool, "true");
    assert_eq!(build(&parsed).unwrap(), JsonValue::Bool(true));

    let parsed = leaf(Rule::Bool, "false");
    assert_eq!(build(&parsed).unwrap(), JsonValue::Bool(false));
}

#[test]
fn pest_parse_number_should_work() {
    assert_eq!(num_to_f64(&built_number("123.456")), 123.456);
    assert_eq!(num_to_f64(&built_number("-123.456")), -123.456);
    assert_eq!(num_to_f64(&built_number("0")), 0.0);
    assert_eq!(num_to_f64(&built_number("123")), 123.0);
    assert_eq!(num_to_f64(&built_number("-123")), -123.0);
}

#[test]
fn pest_parse_string_should_work() {
    let parsed = leaf(Rule::Chars, r#"hello \" world\""#);
    assert_eq!(
        build(&parsed).unwrap(),
        JsonValue::String(r#"hello \" world\""#.to_string())
    );
}

#[test]
fn pest_parse_array_should_work() {
    let parsed = node(
        Rule::Array,
        r#"["hello", "world"]"#,
        vec![
            value_node(r#""hello""#, leaf(Rule::Chars, "hello")),
            value_node(r#""world""#, leaf(Rule::Chars, "world")),
        ],
    );
    assert_eq!(
        build(&parsed).unwrap(),
        JsonValue::Array(vec![
            JsonValue::String("hello".to_string()),
            JsonValue::String("world".to_string()),
        ])
    );
}

#[test]
fn pest_parse_object_should_work() {
    let parsed = node(
        Rule::Object,
        r#"{"hello": "world"}"#,
        vec![node(
            Rule::Pair,
            r#""hello": "world""#,
            vec![
                leaf(Rule::Chars, "hello"),
                value_node(r#""world""#, leaf(Rule::Chars, "world")),
            ],
        )],
    );
    assert_eq!(
        build(&parsed).unwrap(),
        JsonValue::Object(vec![(
            "hello".to_string(),
            JsonValue::String("world".to_string())
        )])
    );
}

#[test]
fn number_spellings_normalize_to_one_value() {
    assert_eq!(built_number("123"), built_number("123.0"));
    assert_eq!(built_number("123"), built_number("0123.000"));
    assert_eq!(
        built_number("007.450"),
        JsonNumber { neg: false, int_digits: vec![7], frac_digits: vec![4, 5] }
    );
    assert_eq!(
        built_number("0.5"),
        JsonNumber { neg: false, int_digits: vec![0], frac_digits: vec![5] }
    );
}

#[test]
fn negative_zero_keeps_its_sign() {
    let n = built_number("-0");
    assert_eq!(n, JsonNumber { neg: true, int_digits: vec![0], frac_digits: vec![] });
    assert!(num_to_f64(&n).is_sign_negative());
    assert_ne!(n, built_number("0"));
}

#[test]
fn malformed_numbers_are_conversion_errors() {
    for text in ["", "-", "abc", "1e5", "1.", ".5", "--1", "1.2.3", "+1", "1 "] {
        assert_eq!(
            build(&leaf(Rule::Number, text)),
            Err(BuildError::Conversion),
            "text {:?}",
            text
        );
    }
}

#[test]
fn bool_text_must_be_a_boolean_literal() {
    assert_eq!(build(&leaf(Rule::Bool, "yes")), Err(BuildError::Conversion));
    assert_eq!(build(&leaf(Rule::Bool, "True")), Err(BuildError::Conversion));
}

#[test]
fn empty_value_wrapper_is_a_structure_error() {
    assert_eq!(build(&node(Rule::Value, "", vec![])), Err(BuildError::Structure));
}

#[test]
fn object_entry_needs_key_and_value() {
    let missing_value = node(
        Rule::Object,
        r#"{"a"}"#,
        vec![node(Rule::Pair, r#""a""#, vec![leaf(Rule::Chars, "a")])],
    );
    assert_eq!(build(&missing_value), Err(BuildError::Structure));

    let missing_both = node(Rule::Object, "{}", vec![node(Rule::Pair, "", vec![])]);
    assert_eq!(build(&missing_both), Err(BuildError::Structure));
}

#[test]
fn unknown_rule_is_reported_with_its_label() {
    assert_eq!(
        build(&leaf(Rule::Json, "null")),
        Err(BuildError::UnhandledRule(Rule::Json))
    );
    assert_eq!(
        build(&leaf(Rule::Str, r#""x""#)),
        Err(BuildError::UnhandledRule(Rule::Str))
    );
    assert_eq!(build(&leaf(Rule::Eoi, "")), Err(BuildError::UnhandledRule(Rule::Eoi)));
}

#[test]
fn empty_containers_build_to_empty_containers() {
    assert_eq!(build(&node(Rule::Array, "[]", vec![])).unwrap(), JsonValue::Array(vec![]));
    assert_eq!(build(&node(Rule::Object, "{}", vec![])).unwrap(), JsonValue::Object(vec![]));
}

#[test]
fn duplicate_keys_last_write_wins() {
    let parsed = node(
        Rule::Object,
        r#"{"a": "x", "a": "y"}"#,
        vec![
            node(
                Rule::Pair,
                r#""a": "x""#,
                vec![leaf(Rule::Chars, "a"), value_node(r#""x""#, leaf(Rule::Chars, "x"))],
            ),
            node(
                Rule::Pair,
                r#""a": "y""#,
                vec![leaf(Rule::Chars, "a"), value_node(r#""y""#, leaf(Rule::Chars, "y"))],
            ),
        ],
    );
    assert_eq!(
        build(&parsed).unwrap(),
        JsonValue::Object(vec![("a".to_string(), JsonValue::String("y".to_string()))])
    );
}

#[test]
fn first_failing_child_decides_the_error() {
    let bad_bool = leaf(Rule::Bool, "maybe");
    let bad_wrapper = node(Rule::Value, "", vec![]);
    let conversion_first = node(
        Rule::Array,
        "",
        vec![
            value_node("maybe", bad_bool),
            bad_wrapper,
        ],
    );
    assert_eq!(build(&conversion_first), Err(BuildError::Conversion));

    let structure_first = node(
        Rule::Array,
        "",
        vec![
            node(Rule::Value, "", vec![]),
            value_node("maybe", leaf(Rule::Bool, "maybe")),
        ],
    );
    assert_eq!(build(&structure_first), Err(BuildError::Structure));
}

#[test]
fn value_wrapper_unwraps_to_its_child() {
    let parsed = value_node("null", leaf(Rule::Null, "null"));
    assert_eq!(build(&parsed).unwrap(), JsonValue::Null);
}

#[test]
fn array_keeps_child_count_and_order() {
    let parsed = node(
        Rule::Array,
        "[null, true, 2]",
        vec![
            value_node("null", leaf(Rule::Null, "null")),
            value_node("true", leaf(Rule::Bool, "true")),
            value_node("2", leaf(Rule::Number, "2")),
        ],
    );
    assert_eq!(
        build(&parsed).unwrap(),
        JsonValue::Array(vec![
            JsonValue::Null,
            JsonValue::Bool(true),
            JsonValue::Number(JsonNumber { neg: false, int_digits: vec![2], frac_digits: vec![] }),
        ])
    );
}

#[test]
fn building_twice_yields_equal_values() {
    let make = || {
        node(
            Rule::Object,
            r#"{"k": [1]}"#,
            vec![node(
                Rule::Pair,
                r#""k": [1]"#,
                vec![
                    leaf(Rule::Chars, "k"),
                    value_node(
                        "[1]",
                        node(Rule::Array, "[1]", vec![value_node("1", leaf(Rule::Number, "1"))]),
                    ),
                ],
            )],
        )
    };
    let a = make();
    let b = make();
    assert_eq!(a, b);
    assert_eq!(build(&a), build(&b));
}
