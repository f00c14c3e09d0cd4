//! The serializer's whole job is byte-deterministic, spec-valid output;
//! these tests pin the exact bytes.

use xmlcarve::json::Value;

/// The shortest decimal form of the number that a literal denotes.
fn float_text(literal: &str) -> String {
    literal.parse::<f64>().unwrap().to_string()
}

#[test]
fn scalars_serialize_to_their_json_literals() {
    assert_eq!(Value::Null.to_json(&float_text), "null");
    assert_eq!(Value::Bool(true).to_json(&float_text), "true");
    assert_eq!(Value::Bool(false).to_json(&float_text), "false");
    assert_eq!(Value::Int(-42).to_json(&float_text), "-42");
    assert_eq!(Value::Int(i64::MAX).to_json(&float_text), "9223372036854775807");
    assert_eq!(Value::Float(2.5_f64.to_string()).to_json(&float_text), "2.5");
}

#[test]
fn strings_escape_quotes_backslashes_and_controls() {
    assert_eq!(Value::Str("a\"b\\c".into()).to_json(&float_text), r#""a\"b\\c""#);
    assert_eq!(
        Value::Str("\n\r\t\u{08}\u{0C}".into()).to_json(&float_text),
        r#""\n\r\t\b\f""#
    );
    assert_eq!(
        Value::Str("\u{01}\u{1F}".into()).to_json(&float_text),
        "\"\\u0001\\u001f\""
    );
}

#[test]
fn non_ascii_text_passes_through_unescaped() {
    // JSONL consumers expect UTF-8, not \uXXXX soup; this keeps CJK
    // wiki dumps readable.
    assert_eq!(
        Value::Str("日本語 emoji \u{1F600}".into()).to_json(&float_text),
        "\"日本語 emoji \u{1F600}\""
    );
}

#[test]
fn arrays_and_objects_serialize_compactly_in_order() {
    let v = Value::Object(vec![
        ("b".into(), Value::Int(1)),
        (
            "a".into(),
            Value::Array(vec![Value::Null, Value::Str("x".into())]),
        ),
    ]);
    // "b" stays before "a": insertion order, not sorted order.
    assert_eq!(v.to_json(&float_text), r#"{"b":1,"a":[null,"x"]}"#);
    // Empty containers get no padding either.
    assert_eq!(Value::Array(vec![]).to_json(&float_text), "[]");
    assert_eq!(Value::Object(vec![]).to_json(&float_text), "{}");
}

#[test]
fn keys_are_escaped_like_values() {
    let v = Value::Object(vec![("weird\"key".into(), Value::Null)]);
    assert_eq!(v.to_json(&float_text), r#"{"weird\"key":null}"#);
}

#[test]
fn float_output_round_trips_through_parse() {
    for f in [0.1_f64, 1e30, -2.5e-3, 123456.789] {
        let s = Value::Float(f.to_string()).to_json(&float_text);
        assert_eq!(s.parse::<f64>().unwrap(), f, "round-trip failed for {s}");
    }
}

#[test]
fn every_value_is_one_line() {
    let all_controls: String = (0..0x20_u8).map(char::from).collect();
    let v = Value::Object(vec![(
        all_controls.clone(),
        Value::Array(vec![Value::Str(all_controls), Value::Int(i64::MIN)]),
    )]);
    assert!(v.to_json(&float_text).chars().all(|c| c >= ' '));
}

#[test]
fn different_strings_have_different_texts() {
    let strings = ["", "\\", "\"", "\\\"", "\\n", "\n", "\u{1}", "\\u0001", "n"];
    for a in strings {
        for b in strings {
            let (x, y) = (Value::Str(a.into()).to_json(&float_text), Value::Str(b.into()).to_json(&float_text));
            assert_eq!(a == b, x == y);
            // Nor does one text begin the other.
            assert_eq!(a == b, y.starts_with(&x));
        }
    }
}

#[test]
fn copies_are_equal() {
    let v = Value::Object(vec![
        ("a".into(), Value::Array(vec![Value::Null, Value::Bool(true)])),
        ("b".into(), Value::Float("1.5".into())),
    ]);
    assert_eq!(v.clone(), v);
}

#[test]
fn floats_are_written_as_they_are_shown_and_nothing_else_is() {
    let show = |literal: &str| format!("<{literal}>");
    let v = Value::Array(vec![
        Value::Float("1.50".into()),
        Value::Str("1.50".into()),
        Value::Int(7),
        Value::Object(vec![("1.50".into(), Value::Float("2.0".into()))]),
    ]);
    assert_eq!(v.to_json(&show), r#"[<1.50>,"1.50",7,{"1.50":<2.0>}]"#);
    let mut out = String::from("kept ");
    v.write(&mut out, &show);
    assert_eq!(out, format!("kept {}", v.to_json(&show)));
    assert_eq!(Value::Float(".5".into()).to_json(&float_text), "0.5");
}

#[test]
fn different_values_have_different_texts() {
    let values = || {
        vec![
            Value::Null,
            Value::Bool(true),
            Value::Bool(false),
            Value::Int(1),
            Value::Int(-1),
            Value::Int(10),
            Value::Float("1.5".into()),
            Value::Float("15e-2".into()),
            Value::Str("1".into()),
            Value::Str("null".into()),
            Value::Array(vec![]),
            Value::Array(vec![Value::Null]),
            Value::Array(vec![Value::Array(vec![])]),
            Value::Array(vec![Value::Int(1), Value::Int(0)]),
            Value::Object(vec![]),
            Value::Object(vec![("a".into(), Value::Int(1))]),
            Value::Object(vec![("a".into(), Value::Int(1)), ("b".into(), Value::Null)]),
            Value::Object(vec![("b".into(), Value::Null), ("a".into(), Value::Int(1))]),
            Value::Object(vec![("a\":1,\"b".into(), Value::Null)]),
        ]
    };
    for (i, a) in values().iter().enumerate() {
        for (k, b) in values().iter().enumerate() {
            assert_eq!(i == k, a.to_json(&float_text) == b.to_json(&float_text), "{a:?} {b:?}");
        }
    }
}

#[test]
fn containers_join_the_texts_of_their_parts() {
    let parts = [
        Value::Str("a,b".into()),
        Value::Array(vec![Value::Int(1), Value::Int(2)]),
        Value::Null,
    ];
    let texts: Vec<String> = parts.iter().map(|v| v.to_json(&float_text)).collect();
    assert_eq!(
        Value::Array(parts.to_vec()).to_json(&float_text),
        format!("[{}]", texts.join(","))
    );
    let keys = ["x", "y\"", ""];
    let entries: Vec<(String, Value)> = keys
        .iter()
        .map(|k| k.to_string())
        .zip(parts.iter().cloned())
        .collect();
    let members: Vec<String> = entries
        .iter()
        .map(|(k, v)| format!("{}:{}", Value::Str(k.clone()).to_json(&float_text), v.to_json(&float_text)))
        .collect();
    assert_eq!(
        Value::Object(entries).to_json(&float_text),
        format!("{{{}}}", members.join(","))
    );
}
