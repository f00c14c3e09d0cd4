//! Builder tests drive the same start/text/end sequence the carve driver
//! produces, then pin the serialized JSON — mapping rules are contracts.

use xmlcarve::json::Value;
use xmlcarve::record::{infer, map_name, MapOptions, RecordBuilder};

/// The shortest decimal form of the number that a literal denotes.
fn float_text(literal: &str) -> String {
    literal.parse::<f64>().unwrap().to_string()
}

/// The float that a text stands for.
fn inferred_float(text: &str) -> f64 {
    match infer(text) {
        Value::Float(literal) => literal.parse().unwrap(),
        other => panic!("expected a float, got {other:?}"),
    }
}

/// Tiny event DSL: ("+name", attrs) opens, ("-",) closes, ("t", s) text.
fn build(opts: MapOptions, script: &[(&str, &[(&str, &str)])]) -> Value {
    let mut b = RecordBuilder::new(opts);
    let mut result = None;
    for (op, attrs) in script {
        if let Some(name) = op.strip_prefix('+') {
            let attrs: Vec<(String, String)> = attrs
                .iter()
                .map(|(k, v)| (k.to_string(), v.to_string()))
                .collect();
            b.start(name, &attrs);
        } else if *op == "-" {
            result = b.end();
        } else if let Some(t) = op.strip_prefix('t') {
            b.text(t, false);
        } else if let Some(t) = op.strip_prefix('c') {
            b.text(t, true);
        }
    }
    result.expect("script should close the record")
}

const NO_ATTRS: &[(&str, &str)] = &[];

#[test]
fn text_only_element_becomes_a_plain_string_preserved_verbatim() {
    let v = build(
        MapOptions::default(),
        &[("+title", NO_ATTRS), ("tHello", NO_ATTRS), ("-", NO_ATTRS)],
    );
    assert_eq!(v.to_json(&float_text), r#""Hello""#);
    // Wiki page bodies keep meaningful leading/trailing newlines.
    let v = build(
        MapOptions::default(),
        &[
            ("+t", NO_ATTRS),
            ("t\n  body \n", NO_ATTRS),
            ("-", NO_ATTRS),
        ],
    );
    assert_eq!(v.to_json(&float_text), "\"\\n  body \\n\"");
}

#[test]
fn empty_element_becomes_null_but_empty_cdata_becomes_empty_string() {
    let empty = build(MapOptions::default(), &[("+a", NO_ATTRS), ("-", NO_ATTRS)]);
    assert_eq!(empty, Value::Null);
    // <a><![CDATA[]]></a> is an *explicit* empty string, not absence.
    let cdata = build(
        MapOptions::default(),
        &[("+a", NO_ATTRS), ("c", NO_ATTRS), ("-", NO_ATTRS)],
    );
    assert_eq!(cdata, Value::Str(String::new()));
}

#[test]
fn attributes_get_the_at_prefix_and_come_first() {
    let v = build(
        MapOptions::default(),
        &[
            ("+page", &[("id", "7"), ("ns", "0")]),
            ("tX", NO_ATTRS),
            ("-", NO_ATTRS),
        ],
    );
    assert_eq!(v.to_json(&float_text), r##"{"@id":"7","@ns":"0","#text":"X"}"##);
}

#[test]
fn attr_prefix_and_text_key_are_configurable() {
    let opts = MapOptions {
        attr_prefix: "_".to_string(),
        text_key: "value".to_string(),
        ..MapOptions::default()
    };
    let v = build(
        opts,
        &[("+a", &[("k", "v")]), ("thi", NO_ATTRS), ("-", NO_ATTRS)],
    );
    assert_eq!(v.to_json(&float_text), r#"{"_k":"v","value":"hi"}"#);
}

#[test]
fn repeated_children_collapse_into_an_array_in_document_order() {
    let v = build(
        MapOptions::default(),
        &[
            ("+links", NO_ATTRS),
            ("+a", NO_ATTRS),
            ("t1", NO_ATTRS),
            ("-", NO_ATTRS),
            ("+b", NO_ATTRS),
            ("tmid", NO_ATTRS),
            ("-", NO_ATTRS),
            ("+a", NO_ATTRS),
            ("t2", NO_ATTRS),
            ("-", NO_ATTRS),
            ("+a", NO_ATTRS),
            ("t3", NO_ATTRS),
            ("-", NO_ATTRS),
            ("-", NO_ATTRS),
        ],
    );
    // "a" keeps its first position; "b" is not disturbed.
    assert_eq!(v.to_json(&float_text), r#"{"a":["1","2","3"],"b":"mid"}"#);
    // A single child stays scalar — never a one-element array.
    let v = build(
        MapOptions::default(),
        &[
            ("+r", NO_ATTRS),
            ("+k", NO_ATTRS),
            ("tv", NO_ATTRS),
            ("-", NO_ATTRS),
            ("-", NO_ATTRS),
        ],
    );
    assert_eq!(v.to_json(&float_text), r#"{"k":"v"}"#);
}

#[test]
fn indentation_whitespace_between_children_is_dropped() {
    let v = build(
        MapOptions::default(),
        &[
            ("+r", NO_ATTRS),
            ("t\n  ", NO_ATTRS),
            ("+k", NO_ATTRS),
            ("tv", NO_ATTRS),
            ("-", NO_ATTRS),
            ("t\n", NO_ATTRS),
            ("-", NO_ATTRS),
        ],
    );
    assert_eq!(v.to_json(&float_text), r#"{"k":"v"}"#);
}

#[test]
fn mixed_content_keeps_real_text_under_the_text_key() {
    let v = build(
        MapOptions::default(),
        &[
            ("+p", NO_ATTRS),
            ("tsee ", NO_ATTRS),
            ("+b", NO_ATTRS),
            ("there", NO_ATTRS),
            ("-", NO_ATTRS),
            ("t for details", NO_ATTRS),
            ("-", NO_ATTRS),
        ],
    );
    assert_eq!(v.to_json(&float_text), r##"{"b":"here","#text":"see  for details"}"##);
    // Whitespace-only CDATA is explicit and survives the filtering that
    // drops indentation whitespace.
    let v = build(
        MapOptions::default(),
        &[
            ("+r", NO_ATTRS),
            ("+k", NO_ATTRS),
            ("tv", NO_ATTRS),
            ("-", NO_ATTRS),
            ("c  ", NO_ATTRS), // explicit <![CDATA[  ]]>
            ("-", NO_ATTRS),
        ],
    );
    assert_eq!(v.to_json(&float_text), r##"{"k":"v","#text":"  "}"##);
}

#[test]
fn wrap_option_nests_the_record_under_its_element_name() {
    let opts = MapOptions {
        wrap: true,
        ..MapOptions::default()
    };
    let v = build(
        opts,
        &[("+page", NO_ATTRS), ("thi", NO_ATTRS), ("-", NO_ATTRS)],
    );
    assert_eq!(v.to_json(&float_text), r#"{"page":"hi"}"#);
}

#[test]
fn strip_namespaces_removes_prefixes_and_xmlns_declarations() {
    let opts = MapOptions {
        strip_namespaces: true,
        ..MapOptions::default()
    };
    let v = build(
        opts,
        &[
            (
                "+dc:record",
                &[("xmlns:dc", "http://example.test/dc"), ("dc:id", "9")],
            ),
            ("+dc:title", NO_ATTRS),
            ("tT", NO_ATTRS),
            ("-", NO_ATTRS),
            ("-", NO_ATTRS),
        ],
    );
    assert_eq!(v.to_json(&float_text), r#"{"@id":"9","title":"T"}"#);
}

#[test]
fn infer_types_converts_text_and_attribute_scalars() {
    let opts = MapOptions {
        infer_types: true,
        ..MapOptions::default()
    };
    let v = build(
        opts,
        &[
            ("+r", &[("id", "42")]),
            ("+ok", NO_ATTRS),
            ("ttrue", NO_ATTRS),
            ("-", NO_ATTRS),
            ("+score", NO_ATTRS),
            ("t2.5", NO_ATTRS),
            ("-", NO_ATTRS),
            ("+name", NO_ATTRS),
            ("tbob", NO_ATTRS),
            ("-", NO_ATTRS),
            ("-", NO_ATTRS),
        ],
    );
    assert_eq!(
        v.to_json(&float_text),
        r#"{"@id":42,"ok":true,"score":2.5,"name":"bob"}"#
    );
}

#[test]
fn infer_keeps_ambiguous_numbers_as_strings() {
    // Leading zeros are identifiers (postal codes, phone numbers).
    assert_eq!(infer("007"), Value::Str("007".into()));
    assert_eq!(infer("-0"), Value::Str("-0".into()));
    // Beyond i64: converting to f64 would silently lose precision.
    assert_eq!(
        infer("92233720368547758080"),
        Value::Str("92233720368547758080".into())
    );
    // Float shapes that Rust would happily parse but JSON cannot express.
    assert_eq!(infer("NaN"), Value::Str("NaN".into()));
    assert_eq!(infer("inf"), Value::Str("inf".into()));
    assert_eq!(infer("1e999"), Value::Str("1e999".into()));
    // Signed-plus and empty strings are not numbers either.
    assert_eq!(infer("+5"), Value::Str("+5".into()));
    assert_eq!(infer(""), Value::Str("".into()));
    assert_eq!(infer("1.2.3"), Value::Str("1.2.3".into()));
    assert_eq!(infer("True"), Value::Str("True".into()));
}

#[test]
fn infer_accepts_the_full_strict_float_grammar() {
    assert_eq!(inferred_float("0.5"), 0.5);
    assert_eq!(inferred_float("-0.5"), -0.5);
    assert_eq!(inferred_float(".5"), 0.5);
    assert_eq!(inferred_float("5."), 5.0);
    assert_eq!(inferred_float("1e3"), 1000.0);
    assert_eq!(inferred_float("1.5E-2"), 0.015);
    assert_eq!(inferred_float("2e+1"), 20.0);
    assert_eq!(infer("-9007199254775807"), Value::Int(-9007199254775807));
    assert_eq!(infer("0"), Value::Int(0));
}

#[test]
fn deeply_nested_structure_maps_recursively() {
    let v = build(
        MapOptions::default(),
        &[
            ("+page", NO_ATTRS),
            ("+revision", NO_ATTRS),
            ("+contributor", NO_ATTRS),
            ("+username", NO_ATTRS),
            ("tAda", NO_ATTRS),
            ("-", NO_ATTRS),
            ("-", NO_ATTRS),
            ("-", NO_ATTRS),
            ("-", NO_ATTRS),
        ],
    );
    assert_eq!(
        v.to_json(&float_text),
        r#"{"revision":{"contributor":{"username":"Ada"}}}"#
    );
    // in_progress() reports whether any frame of the record is still open.
    let mut b = RecordBuilder::new(MapOptions::default());
    assert!(!b.in_progress());
    b.start("a", &[]);
    b.start("b", &[]);
    assert!(b.in_progress());
    assert_eq!(b.end(), None); // closes <b>, record still open
    assert!(b.in_progress());
    assert!(b.end().is_some());
    assert!(!b.in_progress());
}

#[test]
fn inference_keeps_the_text_recoverable() {
    let texts = [
        "true", "false", "0", "-1", "9223372036854775807", "-9223372036854775808",
        "9223372036854775808", "-9223372036854775809", "00", "-0", "-", "1.50", "-.5e+07", "e5",
        ".", "1e", "--1", " 1", "x",
    ];
    for text in texts {
        match infer(text) {
            Value::Str(s) | Value::Float(s) => assert_eq!(s, text),
            other => assert_eq!(other.to_json(&float_text), text),
        }
    }
    assert_eq!(infer("-9223372036854775808"), Value::Int(i64::MIN));
    assert_eq!(
        infer("-9223372036854775809"),
        Value::Str("-9223372036854775809".into())
    );
    for text in [".", "1e", "e5", "-", "1e+", "1.5e5.5", "--1.0", "１.5"] {
        assert_eq!(infer(text), Value::Str(text.into()));
    }
}

#[test]
fn without_inference_everything_stays_text() {
    let v = build(
        MapOptions::default(),
        &[
            ("+r", &[("a", "1")]),
            ("+k", NO_ATTRS),
            ("ttrue", NO_ATTRS),
            ("-", NO_ATTRS),
            ("t2.5", NO_ATTRS),
            ("-", NO_ATTRS),
        ],
    );
    assert_eq!(v.to_json(&float_text), r##"{"@a":"1","k":"true","#text":"2.5"}"##);
}

#[test]
fn an_attribute_shares_the_key_of_a_child_when_there_is_no_prefix() {
    let opts = MapOptions {
        attr_prefix: String::new(),
        ..MapOptions::default()
    };
    let v = build(
        opts,
        &[
            ("+r", &[("k", "attr"), ("z", "last")]),
            ("+k", NO_ATTRS),
            ("tchild", NO_ATTRS),
            ("-", NO_ATTRS),
            ("-", NO_ATTRS),
        ],
    );
    assert_eq!(v.to_json(&float_text), r#"{"k":["attr","child"],"z":"last"}"#);
}

#[test]
fn values_of_repeated_children_keep_their_kinds() {
    let v = build(
        MapOptions::default(),
        &[
            ("+r", NO_ATTRS),
            ("+k", NO_ATTRS),
            ("-", NO_ATTRS),
            ("+k", &[("a", "1")]),
            ("-", NO_ATTRS),
            ("+k", NO_ATTRS),
            ("c", NO_ATTRS),
            ("-", NO_ATTRS),
            ("-", NO_ATTRS),
        ],
    );
    assert_eq!(v.to_json(&float_text), r#"{"k":[null,{"@a":"1"},""]}"#);
}

#[test]
fn text_chunks_join_in_order() {
    let v = build(
        MapOptions::default(),
        &[
            ("+r", NO_ATTRS),
            ("t a", NO_ATTRS),
            ("c\n", NO_ATTRS),
            ("t ", NO_ATTRS),
            ("-", NO_ATTRS),
        ],
    );
    assert_eq!(v.to_json(&float_text), "\" a\\n \"");
}

#[test]
fn text_outside_a_record_is_ignored() {
    let mut b = RecordBuilder::new(MapOptions::default());
    b.text("lost", false);
    assert!(!b.in_progress());
    b.start("r", &[]);
    assert_eq!(b.end(), Some(Value::Null));
}

#[test]
fn names_lose_their_prefix_only_when_asked() {
    let strip = MapOptions {
        strip_namespaces: true,
        ..MapOptions::default()
    };
    for (name, local) in [
        ("dc:title", "title"),
        ("a:b:c", "c"),
        ("title", "title"),
        ("a:", "a:"),
        ("", ""),
        (":x", "x"),
    ] {
        assert_eq!(map_name(name, &strip), local);
        assert_eq!(map_name(local, &strip), local);
        assert_eq!(map_name(name, &MapOptions::default()), name);
    }
}

#[test]
fn namespace_declarations_are_dropped_only_when_stripping() {
    let attrs: &[(&str, &str)] = &[("xmlns", "u"), ("xmlns:a", "v"), ("xmlnsx", "w")];
    let script: &[(&str, &[(&str, &str)])] = &[("+r", attrs), ("-", NO_ATTRS)];
    assert_eq!(
        build(MapOptions::default(), script).to_json(&float_text),
        r#"{"@xmlns":"u","@xmlns:a":"v","@xmlnsx":"w"}"#
    );
    let strip = MapOptions {
        strip_namespaces: true,
        ..MapOptions::default()
    };
    assert_eq!(build(strip, script).to_json(&float_text), r#"{"@xmlnsx":"w"}"#);
}

#[test]
fn only_finite_floats_convert() {
    // The middle between the largest double and the next power of two.
    let bound = "1797693134862315807937289714053034150799341327100378269361737789804449\
                 6829276475094664901797758720709633028641669288791094655554785194040263\
                 0657488671505820681908902000708383676273854845817711531764475730270069\
                 8555713669596228429148198608349364752927190741684443655107043427115596\
                 99508093042880177904174497792";
    let below = format!("{}79", &bound[..307]);
    let mut texts: Vec<String> = [
        "1e308", "1e309", "1.7976931348623157e308", "1.7976931348623158e308",
        "1.7976931348623159e308", "17976931348623158e292", "17976931348623159e292", "0e999",
        "0.0e99999999999999999999999999999999999999", "1e-999",
        "1e-99999999999999999999999999999999999999", "1e99999999999999999999999999999999999999",
        "000000000000000000000000000000.5e308", "0.0000000001e318", "0.0000000001e319", "5e-324",
        "-1e309", "-.1e310", ".1e309", "9.e308", "1E+308", "1E+309",
    ]
    .map(String::from)
    .to_vec();
    for digits in [bound, below.as_str()] {
        texts.push(format!("{digits}.0"));
        texts.push(format!("{digits}.9"));
        texts.push(format!("{digits}e0"));
        texts.push(format!("{digits}e1"));
        texts.push(format!("{digits}0e-1"));
        texts.push(format!("{digits}9999999999e-10"));
        texts.push(format!("-{}.{}e308", &digits[..1], &digits[1..]));
        texts.push(format!(".{digits}e309"));
        texts.push(format!(".000{digits}e312"));
    }
    for i in 3..307 {
        for digit in ["0", "9"] {
            texts.push(format!("{}{digit}{}.0", &bound[..i], &bound[i + 1..]));
        }
    }
    for text in &texts {
        let finite = text.parse::<f64>().unwrap().is_finite();
        let wanted = if finite {
            Value::Float(text.clone())
        } else {
            Value::Str(text.clone())
        };
        assert_eq!(infer(text), wanted);
    }
    assert_eq!(infer(&format!("{bound}.0")), Value::Str(format!("{bound}.0")));
    assert_eq!(infer(&format!("{below}.9")), Value::Float(format!("{below}.9")));
}
