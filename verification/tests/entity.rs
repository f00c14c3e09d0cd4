//! Entity decoding is the first thing a messy legacy dump breaks, so the
//! failure cases here matter as much as the happy path.

use xmlcarve::entity::decode;

#[test]
fn decodes_all_five_predefined_entities_and_leaves_plain_text_alone() {
    assert_eq!(decode("hello <world>", false).unwrap(), "hello <world>");
    assert_eq!(
        decode("&lt;a b=&quot;c&apos;d&quot;&gt; &amp; more", false).unwrap(),
        "<a b=\"c'd\"> & more"
    );
    // Adjacent and repeated references decode independently.
    assert_eq!(decode("&amp;&amp;&lt;&gt;", false).unwrap(), "&&<>");
}

#[test]
fn decodes_decimal_and_hex_character_references() {
    assert_eq!(
        decode("&#65;&#x42;&#x1F600;", false).unwrap(),
        "AB\u{1F600}"
    );
    // Uppercase X radix marker is accepted too.
    assert_eq!(decode("&#X42;", false).unwrap(), "B");
}

#[test]
fn control_and_surrogate_code_points_are_rejected() {
    // Tab, LF and CR are the only control characters XML allows.
    assert_eq!(decode("&#9;&#10;&#13;", false).unwrap(), "\t\n\r");
    assert!(decode("&#0;", false).is_err());
    assert!(decode("&#7;", false).is_err());
    // 0xD800 is a UTF-16 surrogate; char::from_u32 refuses it, and so must we.
    let err = decode("&#xD800;", false).unwrap_err();
    assert!(err.contains("not a valid XML character"), "got: {err}");
}

#[test]
fn unknown_named_entity_is_an_error_by_default() {
    let err = decode("a&nbsp;b", false).unwrap_err();
    assert!(
        err.contains("&nbsp;"),
        "error should name the entity: {err}"
    );
}

#[test]
fn lenient_mode_passes_unknown_named_entities_through_verbatim() {
    assert_eq!(
        decode("a&nbsp;b&eacute;c", true).unwrap(),
        "a&nbsp;b&eacute;c"
    );
    // Known entities still decode in lenient mode.
    assert_eq!(decode("&amp;&nbsp;", true).unwrap(), "&&nbsp;");
}

#[test]
fn unterminated_reference_is_reported_without_scanning_the_whole_node() {
    let long_tail = format!("&oops{}", "x".repeat(10_000));
    let err = decode(&long_tail, true).unwrap_err();
    assert!(err.contains("unterminated"), "got: {err}");
}

#[test]
fn stray_ampersand_is_malformed_even_in_lenient_mode() {
    // "& " can never be a reference; silently keeping it would hide data
    // corruption, so lenient mode still rejects it.
    assert!(decode("fish & chips;", true).is_err());
    assert!(decode("&;", true).is_err());
}

#[test]
fn plain_text_is_the_same_in_both_modes() {
    for text in ["", "plain", "a < b; c > d", "\u{1F600} \t\n"] {
        assert_eq!(decode(text, false).unwrap(), text);
        assert_eq!(decode(text, true).unwrap(), text);
    }
}

#[test]
fn decoding_works_piece_by_piece() {
    let pieces = ["x&lt;", "&amp;y", "", "&#233;", "z"];
    for a in pieces {
        for b in pieces {
            let whole = decode(&format!("{a}{b}"), false).unwrap();
            let parts = decode(a, false).unwrap() + &decode(b, false).unwrap();
            assert_eq!(whole, parts);
        }
    }
}

#[test]
fn lenient_mode_agrees_with_strict_mode_where_that_succeeds() {
    for text in ["&lt;&gt;", "&#x41;", "a&quot;b", "&apos;"] {
        assert_eq!(decode(text, true), decode(text, false));
    }
}

#[test]
fn each_malformed_reference_has_its_message() {
    let fails = |text: &str| {
        let strict = decode(text, false).unwrap_err();
        // No mode lets a malformed reference through.
        assert_eq!(decode(text, true).unwrap_err(), strict);
        strict
    };
    assert_eq!(fails("&"), "unterminated entity reference (missing ';')");
    assert_eq!(fails("&;"), "malformed entity reference '&;'");
    assert_eq!(fails("&a b;"), "malformed entity reference '&a b;'");
    assert_eq!(fails("&#;"), "malformed character reference '&#;'");
    assert_eq!(fails("&#x;"), "malformed character reference '&#x;'");
    assert_eq!(fails("&#12a;"), "malformed character reference '&#12a;'");
    assert_eq!(
        fails("&#4294967296;"),
        "malformed character reference '&#4294967296;'"
    );
    assert_eq!(
        fails("&#x110000;"),
        "character reference '&#x110000;' is not a valid XML character"
    );
    assert_eq!(
        fails("ok &amp; then &#8;"),
        "character reference '&#8;' is not a valid XML character"
    );
}

#[test]
fn the_unknown_entity_message_is_complete() {
    assert_eq!(
        decode("&nbsp;", false).unwrap_err(),
        "unknown entity reference '&nbsp;' (only XML's five predefined entities and character \
         references are decoded; lenient mode passes unknown named entities through)"
    );
}

#[test]
fn entity_names_may_be_forty_characters_long() {
    let name = "n".repeat(40);
    let reference = format!("&{name};");
    assert_eq!(decode(&reference, true).unwrap(), reference);
    let longer = format!("&{name}n;");
    assert!(decode(&longer, true).unwrap_err().contains("unterminated"));
}

#[test]
fn entity_names_are_letters_digits_and_a_few_marks() {
    for name in ["eacute", "été", "a-b_c.d", "9", "日本"] {
        let reference = format!("&{name};");
        assert_eq!(decode(&reference, true).unwrap(), reference);
    }
    for name in ["a!", "a/b", "(", "a\u{a0}b"] {
        assert!(decode(&format!("&{name};"), true).is_err());
    }
}

#[test]
fn code_points_are_read_like_other_numbers() {
    assert_eq!(decode("&#+65;&#x+41;&#0065;", false).unwrap(), "AAA");
    assert_eq!(decode("&#xD7FF;&#xE000;", false).unwrap(), "\u{D7FF}\u{E000}");
    assert_eq!(decode("&#x10ffff;", false).unwrap(), "\u{10FFFF}");
    assert_eq!(decode("&#32;", false).unwrap(), " ");
    assert!(decode("&#31;", false).is_err());
}

#[test]
fn references_stay_within_the_character_range_of_xml() {
    for text in ["&#xFFFE;", "&#xFFFF;", "&#65535;", "&#65534;"] {
        for lenient in [false, true] {
            let err = decode(text, lenient).unwrap_err();
            assert!(err.contains("is not a valid XML character"), "got: {err}");
        }
    }
    assert_eq!(decode("&#xFFFD;", false).unwrap(), "\u{FFFD}");
    assert_eq!(decode("&#x10000;", false).unwrap(), "\u{10000}");
    // Beyond the basic plane every code point is in range.
    assert_eq!(decode("&#x1FFFF;", false).unwrap(), "\u{1FFFF}");
}
