//! Parser tests feed byte slices through the same code path a
//! multi-gigabyte file uses (the sliding buffer), so chunk-boundary
//! behavior is exercised with a deliberately tiny reader below.

use xmlcarve::xml::{utf8_failure, Event, ParseError, Parser, ParserOptions};

fn events(input: &str) -> Vec<Event> {
    events_with(input, ParserOptions::default())
}

fn events_with(input: &str, opts: ParserOptions) -> Vec<Event> {
    let mut p = Parser::new(input.as_bytes(), opts);
    let mut out = Vec::new();
    loop {
        let ev = p.next_event().expect("parse should succeed");
        let done = ev == Event::Eof;
        out.push(ev);
        if done {
            break;
        }
    }
    out
}

fn parse_err(input: &str) -> ParseError {
    let mut p = Parser::new(input.as_bytes(), ParserOptions::default());
    loop {
        match p.next_event() {
            Ok(Event::Eof) => panic!("expected a parse error for {input:?}"),
            Ok(_) => continue,
            Err(e) => return e,
        }
    }
}

fn start(name: &str, attrs: &[(&str, &str)]) -> Event {
    Event::Start {
        name: name.to_string(),
        attributes: attrs
            .iter()
            .map(|(k, v)| (k.to_string(), v.to_string()))
            .collect(),
    }
}

fn end(name: &str) -> Event {
    Event::End {
        name: name.to_string(),
    }
}

#[test]
fn minimal_document_produces_start_text_end_eof() {
    assert_eq!(
        events("<a>hi</a>"),
        vec![
            start("a", &[]),
            Event::Text("hi".into()),
            end("a"),
            Event::Eof
        ]
    );
    // Whitespace inside the closing tag is tolerated.
    assert_eq!(
        events("<a></a >"),
        vec![start("a", &[]), end("a"), Event::Eof]
    );
    // And bytes_read matches what --stats will report.
    let doc = "<a>hello</a>";
    let mut p = Parser::new(doc.as_bytes(), ParserOptions::default());
    while p.next_event().unwrap() != Event::Eof {}
    assert_eq!(p.bytes_read(), doc.len() as u64);
}

#[test]
fn self_closing_tag_produces_paired_start_and_end() {
    assert_eq!(events("<a/>"), vec![start("a", &[]), end("a"), Event::Eof]);
    assert_eq!(
        events("<a b=\"1\" />"),
        vec![start("a", &[("b", "1")]), end("a"), Event::Eof]
    );
}

#[test]
fn attributes_support_both_quote_styles_and_entity_decoding() {
    assert_eq!(
        events(r#"<a x="1 &amp; 2" y='he said "hi"'/>"#),
        vec![
            start("a", &[("x", "1 & 2"), ("y", "he said \"hi\"")]),
            end("a"),
            Event::Eof
        ]
    );
}

#[test]
fn attribute_values_may_contain_gt_and_newlines() {
    // '>' inside a quoted value must not terminate the tag early.
    assert_eq!(
        events("<a expr=\"1 > 0\nand more\">x</a>"),
        vec![
            start("a", &[("expr", "1 > 0\nand more")]),
            Event::Text("x".into()),
            end("a"),
            Event::Eof
        ]
    );
}

#[test]
fn declaration_doctype_comment_pi_and_cdata_are_distinct_events() {
    let doc =
        "<?xml version=\"1.0\"?><!DOCTYPE r><r><!-- note --><?php x?><![CDATA[a<b&c]]></r>";
    assert_eq!(
        events(doc),
        vec![
            Event::Declaration,
            Event::Doctype,
            start("r", &[]),
            Event::Comment(" note ".into()),
            Event::Pi("php x".into()),
            Event::CData("a<b&c".into()),
            end("r"),
            Event::Eof
        ]
    );
}

#[test]
fn doctype_internal_subset_with_quotes_and_brackets_is_skipped() {
    let doc = "<!DOCTYPE r [ <!ENTITY x \"weird ]> chars\"> ]><r/>";
    assert_eq!(
        events(doc),
        vec![Event::Doctype, start("r", &[]), end("r"), Event::Eof]
    );
}

#[test]
fn text_entities_are_decoded_and_cdata_is_verbatim() {
    assert_eq!(
        events("<r>&lt;raw&gt;<![CDATA[&lt;kept&gt;]]></r>"),
        vec![
            start("r", &[]),
            Event::Text("<raw>".into()),
            Event::CData("&lt;kept&gt;".into()),
            end("r"),
            Event::Eof
        ]
    );
}

#[test]
fn multiple_root_elements_are_allowed_for_log_style_streams() {
    assert_eq!(
        events("<r a=\"1\"/>\n<r a=\"2\"/>"),
        vec![
            start("r", &[("a", "1")]),
            end("r"),
            Event::Text("\n".into()),
            start("r", &[("a", "2")]),
            end("r"),
            Event::Eof
        ]
    );
}

#[test]
fn encoding_guards_catch_utf16_boms_and_non_utf8_declarations() {
    // A UTF-8 BOM is harmless and skipped.
    let mut with_bom = vec![0xEF, 0xBB, 0xBF];
    with_bom.extend_from_slice(b"<a/>");
    let mut p = Parser::new(with_bom.as_slice(), ParserOptions::default());
    assert_eq!(p.next_event().unwrap(), start("a", &[]));

    // A UTF-16 BOM would decode to garbage; fail with advice instead.
    let utf16 = [0xFF, 0xFE, b'<', 0, b'a', 0];
    let mut p = Parser::new(&utf16[..], ParserOptions::default());
    let err = p.next_event().unwrap_err();
    assert!(err.message.contains("UTF-16"), "got: {err:?}");

    // A declared legacy encoding is rejected up front...
    let err = parse_err("<?xml version=\"1.0\" encoding=\"Shift_JIS\"?><a/>");
    assert!(err.message.contains("shift_jis"), "got: {err:?}");
    // ...while utf-8 spelled in any case is fine.
    assert_eq!(
        events("<?xml version=\"1.0\" encoding=\"UTF-8\"?><a/>"),
        vec![Event::Declaration, start("a", &[]), end("a"), Event::Eof]
    );
}

#[test]
fn mismatched_closing_tag_reports_both_names_and_the_line() {
    let err = parse_err("<a>\n<b>\n</a>");
    assert_eq!(err.line, 3);
    assert!(
        err.message.contains("</b>") && err.message.contains("</a>"),
        "got: {err:?}"
    );
    // Line numbers count newlines inside text runs too.
    let err = parse_err("<a>\nline2\nline3<a x=1/>");
    assert_eq!(err.line, 3);
}

#[test]
fn structural_errors_name_the_offending_element() {
    let err = parse_err("<a><b>text");
    assert!(
        err.message.contains("<b>") && err.message.contains("unclosed"),
        "got: {err:?}"
    );
    assert!(parse_err("</a>").message.contains("no element open"));
    // Empty, whitespace-only and comment-only inputs have no records to
    // carve; failing loudly beats emitting zero lines and exit 0.
    assert!(parse_err("").message.contains("no XML element"));
    assert!(parse_err("   \n  ").message.contains("no XML element"));
    assert!(parse_err("<!-- only a comment -->")
        .message
        .contains("no XML element"));
}

#[test]
fn duplicate_and_unquoted_attributes_are_rejected_with_context() {
    let err = parse_err("<a x=\"1\" x=\"2\"/>");
    assert!(
        err.message.contains("duplicate attribute 'x'"),
        "got: {err:?}"
    );
    let err = parse_err("<a x=1/>");
    assert!(
        err.message.contains("'x'") && err.message.contains("quoted"),
        "got: {err:?}"
    );
}

/// Feeds one byte whenever the parser asks for input: the cruelest possible
/// chunking. Every token boundary lands on a refill edge.
fn events_byte_by_byte(input: &str, opts: ParserOptions) -> Vec<Event> {
    let bytes = input.as_bytes();
    let mut p = Parser::streaming(opts);
    let mut fed = 0;
    let mut out = Vec::new();
    loop {
        match p.poll_event() {
            Some(ev) => {
                let ev = ev.unwrap();
                let done = ev == Event::Eof;
                out.push(ev);
                if done {
                    return out;
                }
            }
            None => {
                if fed < bytes.len() {
                    p.feed(&bytes[fed..fed + 1]);
                    fed += 1;
                } else {
                    p.close();
                }
            }
        }
    }
}

#[test]
fn one_byte_reads_produce_identical_events_to_slice_reads() {
    let doc =
        "<?xml version=\"1.0\"?><r a=\"x&amp;y\"><!-- c --><k>v1</k><k>v2</k><![CDATA[ ]]></r>";
    let got = events_byte_by_byte(doc, ParserOptions::default());
    assert_eq!(got, events(doc));
}

#[test]
fn lenient_entities_flow_through_text_and_attributes() {
    let doc = "<a t=\"&nbsp;\">x&copy;y</a>";
    assert!(Parser::new(doc.as_bytes(), ParserOptions::default())
        .next_event()
        .is_err());
    assert_eq!(
        events_with(
            doc,
            ParserOptions {
                lenient_entities: true
            }
        ),
        vec![
            start("a", &[("t", "&nbsp;")]),
            Event::Text("x&copy;y".into()),
            end("a"),
            Event::Eof
        ]
    );
}

#[test]
fn invalid_utf8_bytes_are_a_clear_error_not_a_panic() {
    let doc = [b'<', b'a', b'>', 0xC3, 0x28, b'<', b'/', b'a', b'>'];
    let mut p = Parser::new(&doc[..], ParserOptions::default());
    p.next_event().unwrap(); // <a>
    let err = p.next_event().unwrap_err();
    assert!(err.message.contains("UTF-8"), "got: {err:?}");
}

/// All answers of a parser that is fed `input` in chunks of `size` bytes, up
/// to the first failure or the end.
fn replies(input: &[u8], size: usize) -> Vec<Result<Event, ParseError>> {
    let mut p = Parser::streaming(ParserOptions::default());
    let mut chunks = input.chunks(size);
    let mut out = Vec::new();
    loop {
        match p.poll_event() {
            Some(reply) => {
                let last = reply == Ok(Event::Eof) || reply.is_err();
                out.push(reply);
                if last {
                    return out;
                }
            }
            None => match chunks.next() {
                Some(chunk) => p.feed(chunk),
                None => p.close(),
            },
        }
    }
}

const MIXED: &str = "\u{feff}<?xml version='1.0' encoding='utf-8'?>\n<!DOCTYPE r [<!ELEMENT r ANY>]>\n\
                     <r k='é &lt; &#233;'><!-- - -- ---><a/>日本<![CDATA[]] ]]]><?pi ?></r >\n";

#[test]
fn chunk_sizes_make_no_difference() {
    let broken = [
        "<a><b></a>",
        "<a>\n<!-- never closed",
        "<a>&oops",
        "<a",
        "",
        "\u{feff}",
        "<a/>x<",
        "<a></a><!bogus>",
    ];
    for doc in broken.iter().chain([&MIXED]) {
        let whole = replies(doc.as_bytes(), doc.len().max(1));
        for size in 1..doc.len() {
            assert_eq!(replies(doc.as_bytes(), size), whole, "size {size} of {doc:?}");
        }
    }
}

#[test]
fn every_start_has_its_end() {
    let mut open = Vec::new();
    for event in events(MIXED) {
        match event {
            Event::Start { name, .. } => open.push(name),
            Event::End { name } => assert_eq!(open.pop(), Some(name)),
            _ => {}
        }
    }
    assert!(open.is_empty());
}

#[test]
fn the_end_is_reported_again_and_again() {
    let mut p = Parser::new(b"<a/>", ParserOptions::default());
    assert_eq!(p.next_event().unwrap(), start("a", &[]));
    assert_eq!(p.depth(), 1);
    assert_eq!(p.next_event().unwrap(), end("a"));
    assert_eq!(p.depth(), 0);
    for _ in 0..3 {
        assert_eq!(p.next_event().unwrap(), Event::Eof);
        assert_eq!(p.bytes_read(), 4);
    }
}

#[test]
fn an_open_parser_waits_for_what_decides() {
    let mut p = Parser::streaming(ParserOptions::default());
    assert_eq!(p.poll_event(), None);
    p.feed(b"<a>te");
    assert_eq!(p.poll_event(), Some(Ok(start("a", &[]))));
    // More text may follow.
    assert_eq!(p.poll_event(), None);
    assert_eq!(p.bytes_read(), 3);
    p.feed(b"xt</a>");
    assert_eq!(p.poll_event(), Some(Ok(Event::Text("text".into()))));
    assert_eq!(p.poll_event(), Some(Ok(end("a"))));
    assert_eq!(p.poll_event(), None);
    p.close();
    assert_eq!(p.poll_event(), Some(Ok(Event::Eof)));
}

#[test]
fn a_parser_asks_for_as_much_as_is_waiting() {
    let mut p = Parser::streaming(ParserOptions::default());
    let room = p.room();
    assert_eq!(p.wanted(), 65536);
    p.feed(&vec![b'x'; 100_000]);
    assert_eq!(p.poll_event(), None);
    assert_eq!(p.wanted(), 100_000);
    assert_eq!(p.room(), room - 100_000);
}

#[test]
fn each_malformed_construct_has_its_message() {
    let cases = [
        ("<a><", "unexpected end of file after '<'"),
        ("<!x>", "unrecognized markup after '<!'"),
        ("<!-- x", "unterminated comment (missing '-->')"),
        ("<a><![CDATA[x", "unterminated CDATA section (missing ']]>')"),
        ("<!DOCTYPE r [", "unterminated DOCTYPE declaration"),
        ("<?pi", "unterminated processing instruction (missing '?>')"),
        ("<a></a", "unterminated closing tag (missing '>')"),
        ("<a></ >", "closing tag with empty name"),
        ("</x>", "closing tag </x> with no element open"),
        ("<a></b>", "mismatched closing tag: expected </a>, found </b>"),
        ("<a b='", "unterminated start tag (missing '>')"),
        ("< >", "start tag with empty name"),
        ("<a=b>", "invalid element name 'a=b'"),
        ("<a b>", "attribute without value in <a>: 'b'"),
        ("<a b c='1'>", "invalid attribute name 'b c' in <a>"),
        ("<a =''>", "invalid attribute name '' in <a>"),
        ("<a b=c>", "attribute 'b' in <a> is missing a quoted value"),
        ("<a b='<'>", "raw '<' in value of attribute 'b' in <a>"),
        ("<a b='1' b='2'>", "duplicate attribute 'b' in <a>"),
        ("<a b='&;'>", "malformed entity reference '&;'"),
        ("<a>&;</a>", "malformed entity reference '&;'"),
        (
            "<a><b>",
            "unexpected end of file: 2 unclosed element(s), <b> still open",
        ),
        ("text", "no XML element found in input"),
        (
            "<?xml encoding='latin1'?>",
            "declared encoding 'latin1' is not supported; re-encode the document to UTF-8",
        ),
    ];
    for (doc, message) in cases {
        assert_eq!(parse_err(doc).message, message, "for {doc:?}");
    }
}

#[test]
fn failures_print_with_their_line() {
    assert_eq!(
        parse_err("<a>\n\n</b>").to_string(),
        "line 3: mismatched closing tag: expected </a>, found </b>"
    );
    let p = Parser::new(b"", ParserOptions::default());
    assert_eq!(
        p.read_failure("disk on fire").to_string(),
        "line 1: read error: disk on fire"
    );
}

#[test]
fn invalid_utf8_is_described_like_std_does() {
    let doc = [b'<', b'a', b'>', b'o', b'k', 0xff, b'<'];
    let mut p = Parser::new(&doc, ParserOptions::default());
    p.next_event().unwrap();
    let std_words = String::from_utf8(vec![b'o', b'k', 0xff])
        .unwrap_err()
        .to_string();
    assert_eq!(
        p.next_event().unwrap_err().message,
        format!("invalid UTF-8 in input ({std_words}); only UTF-8 documents are supported")
    );
    assert_eq!(
        utf8_failure("why"),
        "invalid UTF-8 in input (why); only UTF-8 documents are supported"
    );
}

#[test]
fn lines_are_counted_where_the_parser_stands() {
    let mut p = Parser::new(b"<a\nb='\n'>\n</a>", ParserOptions::default());
    assert_eq!(p.line(), 1);
    p.next_event().unwrap();
    assert_eq!(p.line(), 3);
    p.next_event().unwrap();
    assert_eq!(p.line(), 4);
}
