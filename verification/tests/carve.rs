//! End-to-end through the library: XML string in, JSONL string out.

use xmlcarve::carve::{
    carve, write_record, CarveError, CarveOptions, CarveStats, Carver, OutputError, Pulled,
};
use xmlcarve::record::MapOptions;
use xmlcarve::selector::Selector;
use xmlcarve::xml::ParserOptions;

/// The shortest decimal form of the number that a literal denotes.
fn float_text(literal: &str) -> String {
    literal.parse::<f64>().unwrap().to_string()
}

fn run(
    doc: &str,
    selectors: &[&str],
    tweak: impl FnOnce(&mut CarveOptions),
) -> (String, CarveStats) {
    let mut opts = CarveOptions {
        selectors: selectors
            .iter()
            .map(|s| Selector::parse(s).unwrap())
            .collect(),
        skip: 0,
        limit: None,
        map: MapOptions::default(),
        parser: ParserOptions::default(),
    };
    tweak(&mut opts);
    let mut out = Vec::new();
    let stats = carve(doc.as_bytes(), &mut out, &opts, &float_text).expect("carve should succeed");
    (String::from_utf8(out).unwrap(), stats)
}

const WIKI: &str = r#"<mediawiki>
  <siteinfo><sitename>Testwiki</sitename></siteinfo>
  <page><title>Alpha</title><id>1</id></page>
  <page><title>Beta</title><id>2</id></page>
  <page><title>Gamma</title><id>3</id></page>
</mediawiki>"#;

#[test]
fn carves_one_json_line_per_matching_record() {
    let (out, stats) = run(WIKI, &["page"], |_| {});
    let lines: Vec<&str> = out.lines().collect();
    assert_eq!(lines.len(), 3);
    assert_eq!(lines[0], r#"{"title":"Alpha","id":"1"}"#);
    assert_eq!(lines[2], r#"{"title":"Gamma","id":"3"}"#);
    assert_eq!(stats.records_matched, 3);
    assert_eq!(stats.records_written, 3);
    assert_eq!(stats.bytes_read, WIKI.len() as u64);
}

#[test]
fn siteinfo_and_other_non_matching_elements_flow_past() {
    let (out, _) = run(WIKI, &["page"], |_| {});
    assert!(
        !out.contains("Testwiki"),
        "siteinfo must not leak into records"
    );
    // And zero matches is a success with zero lines, not an error.
    let (out, stats) = run(WIKI, &["nonexistent"], |_| {});
    assert_eq!(out, "");
    assert_eq!(stats.records_matched, 0);
    assert_eq!(stats.records_written, 0);
}

#[test]
fn skip_drops_leading_records_without_building_them() {
    let (out, stats) = run(WIKI, &["page"], |o| o.skip = 2);
    assert_eq!(out, "{\"title\":\"Gamma\",\"id\":\"3\"}\n");
    assert_eq!(stats.records_matched, 3);
    assert_eq!(stats.records_written, 1);
}

#[test]
fn limit_stops_parsing_early_and_composes_with_skip_into_a_window() {
    let (out, stats) = run(WIKI, &["page"], |o| o.limit = Some(1));
    assert_eq!(out, "{\"title\":\"Alpha\",\"id\":\"1\"}\n");
    assert_eq!(stats.records_written, 1);
    // Early exit is the point of --limit on a 40 GB file: we must not
    // have read to the end.
    assert!(
        stats.bytes_read < WIKI.len() as u64,
        "should stop before EOF"
    );

    let (out, stats) = run(WIKI, &["page"], |o| {
        o.skip = 1;
        o.limit = Some(1);
    });
    assert_eq!(out, "{\"title\":\"Beta\",\"id\":\"2\"}\n");
    assert_eq!(stats.records_matched, 2);
}

#[test]
fn nested_matches_inside_a_record_do_not_start_new_records() {
    // <item> inside <item>: only the outermost becomes a record; the
    // inner one is a child field of it.
    let doc = "<r><item><name>outer</name><item><name>inner</name></item></item></r>";
    let (out, stats) = run(doc, &["item"], |_| {});
    assert_eq!(out, "{\"name\":\"outer\",\"item\":{\"name\":\"inner\"}}\n");
    assert_eq!(stats.records_matched, 1);
}

#[test]
fn multiple_selectors_carve_a_union() {
    let doc = "<db><user><n>u1</n></user><group><n>g1</n></group><other/></db>";
    let (out, _) = run(doc, &["user", "group"], |_| {});
    assert_eq!(out, "{\"n\":\"u1\"}\n{\"n\":\"g1\"}\n");
}

#[test]
fn anchored_selector_ignores_lookalikes_deeper_in_the_tree() {
    let doc = "<root><item>top</item><nested><item>deep</item></nested></root>";
    let (out, _) = run(doc, &["/root/item"], |_| {});
    assert_eq!(out, "\"top\"\n");
}

#[test]
fn wrap_and_infer_flow_through_from_options() {
    let doc = "<db><row><id>7</id><ok>true</ok></row></db>";
    let (out, _) = run(doc, &["row"], |o| {
        o.map.wrap = true;
        o.map.infer_types = true;
    });
    assert_eq!(out, "{\"row\":{\"id\":7,\"ok\":true}}\n");
}

#[test]
fn namespace_stripping_applies_to_selector_matching_too() {
    let doc = r#"<w:doc xmlns:w="http://example.test/w"><w:rec><w:v>1</w:v></w:rec></w:doc>"#;
    // With stripping on, the selector is written without the prefix.
    let (out, _) = run(doc, &["doc/rec"], |o| o.map.strip_namespaces = true);
    assert_eq!(out, "{\"v\":\"1\"}\n");
    // Without stripping, the prefixed name is what matches.
    let (out2, _) = run(doc, &["w:doc/w:rec"], |_| {});
    assert_eq!(out2, "{\"w:v\":\"1\"}\n");
}

#[test]
fn rootless_fragment_streams_carve_fine() {
    // Log-style: many roots, no wrapper element at all.
    let doc = "<event id=\"1\"/>\n<event id=\"2\"/>\n";
    let (out, stats) = run(doc, &["event"], |_| {});
    assert_eq!(out, "{\"@id\":\"1\"}\n{\"@id\":\"2\"}\n");
    assert_eq!(stats.records_matched, 2);
}

#[test]
fn record_content_with_entities_and_cdata_round_trips() {
    let doc = "<r><p><t>a &amp; b</t><body><![CDATA[<raw> & bytes]]></body></p></r>";
    let (out, _) = run(doc, &["p"], |_| {});
    assert_eq!(out, "{\"t\":\"a & b\",\"body\":\"<raw> & bytes\"}\n");
}

#[test]
fn malformed_xml_surfaces_as_a_parse_error_with_line() {
    let doc = "<r>\n<page><title>ok</title></page>\n<page></oops>\n</r>";
    let opts = CarveOptions {
        selectors: vec![Selector::parse("page").unwrap()],
        skip: 0,
        limit: None,
        map: MapOptions::default(),
        parser: ParserOptions::default(),
    };
    let mut out = Vec::new();
    let err = carve(doc.as_bytes(), &mut out, &opts, &float_text).unwrap_err();
    match err {
        CarveError::Parse(e) => assert_eq!(e.line, 3),
        other => panic!("expected parse error, got {other:?}"),
    }
    // The good record before the corruption was already emitted —
    // partial rescue is better than nothing.
    assert_eq!(String::from_utf8(out).unwrap(), "{\"title\":\"ok\"}\n");
}

#[test]
fn limit_reached_before_corruption_never_sees_it() {
    // The whole point of streaming: damage past the carve window is
    // irrelevant.
    let doc = "<r><page><id>1</id></page><page></BROKEN";
    let opts = CarveOptions {
        selectors: vec![Selector::parse("page").unwrap()],
        skip: 0,
        limit: Some(1),
        map: MapOptions::default(),
        parser: ParserOptions::default(),
    };
    let mut out = Vec::new();
    let stats = carve(doc.as_bytes(), &mut out, &opts, &float_text).expect("must not reach the damage");
    assert_eq!(stats.records_written, 1);
}

fn options(selectors: &[&str]) -> CarveOptions {
    CarveOptions {
        selectors: selectors
            .iter()
            .map(|s| Selector::parse(s).unwrap())
            .collect(),
        skip: 0,
        limit: None,
        map: MapOptions::default(),
        parser: ParserOptions::default(),
    }
}

/// What comes out of a carver that is fed `doc` in chunks of `size` bytes.
fn run_in_chunks(
    doc: &[u8],
    opts: &CarveOptions,
    size: usize,
) -> (Vec<u8>, Result<CarveStats, CarveError>) {
    let mut out = Vec::new();
    let mut carver = Carver::new(opts);
    let mut chunks = doc.chunks(size);
    loop {
        match carver.pull() {
            Pulled::NeedInput => match chunks.next() {
                Some(chunk) => carver.feed(chunk),
                None => carver.close(),
            },
            Pulled::Record(value) => write_record(&value, &mut out, &float_text),
            Pulled::Done => return (out, Ok(carver.stats())),
            Pulled::Failed(e) => return (out, Err(CarveError::Parse(e))),
        }
    }
}

#[test]
fn chunk_sizes_make_no_difference_to_records() {
    let damaged = "<r><p>1</p><p a='2'><q/></p><p>&bad</p></r>";
    for doc in [WIKI, damaged] {
        for limit in [None, Some(2)] {
            let mut opts = options(&["page", "p"]);
            opts.limit = limit;
            let mut out = Vec::new();
            let whole = carve(doc.as_bytes(), &mut out, &opts, &float_text);
            for size in 1..doc.len() {
                let (chunked_out, chunked) = run_in_chunks(doc.as_bytes(), &opts, size);
                assert_eq!(chunked_out, out);
                assert_eq!(chunked, whole);
            }
        }
    }
}

#[test]
fn skip_and_limit_cut_a_window_out_of_all_records() {
    let doc: String = (0..6).map(|i| format!("<e>{i}<e>in</e></e>")).collect();
    let (all, _) = run(&doc, &["e"], |_| {});
    let lines: Vec<&str> = all.lines().collect();
    assert_eq!(lines.len(), 6);
    for skip in 0..8 {
        for limit in 1..8 {
            let (out, stats) = run(&doc, &["e"], |o| {
                o.skip = skip;
                o.limit = Some(limit);
            });
            let window: Vec<&str> = lines
                .iter()
                .copied()
                .skip(skip as usize)
                .take(limit as usize)
                .collect();
            assert_eq!(out.lines().collect::<Vec<_>>(), window);
            // Matched records are the written and the skipped ones.
            assert_eq!(stats.records_written, window.len() as u64);
            assert_eq!(
                stats.records_matched,
                stats.records_written + skip.min(stats.records_matched)
            );
        }
    }
}

#[test]
fn skipped_records_do_not_nest_either() {
    let doc = "<r><i><i>a</i></i><i>b</i></r>";
    let (out, stats) = run(doc, &["i"], |o| o.skip = 1);
    assert_eq!(out, "\"b\"\n");
    assert_eq!(stats.records_matched, 2);
}

#[test]
fn complete_records_do_not_depend_on_what_follows() {
    let good = "<r><p>1</p><p>2</p>";
    let opts = options(&["p"]);
    for rest in ["", "<p>", "</r>", "</oops>", "&", "<p>3</p></r>"] {
        let mut out = Vec::new();
        let doc = format!("{good}{rest}");
        let _ = carve(doc.as_bytes(), &mut out, &opts, &float_text);
        assert!(out.starts_with(b"\"1\"\n\"2\"\n"));
    }
}

#[test]
fn a_record_with_line_breaks_is_one_line() {
    let doc = "<r><p a='1\n2'>\nx\r\n\ty\n<b>\n</b></p></r>";
    let (out, _) = run(doc, &["p"], |_| {});
    assert_eq!(
        out,
        "{\"@a\":\"1\\n2\",\"b\":\"\\n\",\"#text\":\"\\nx\\r\\n\\ty\\n\"}\n"
    );
}

#[test]
fn floats_are_shown_in_their_shortest_form() {
    let doc = "<r><p>1.50</p><p>1e3</p><p>1e999</p><p>-.5</p></r>";
    let (out, _) = run(doc, &["p"], |o| o.map.infer_types = true);
    assert_eq!(out, "1.5\n1000\n\"1e999\"\n-0.5\n");
}

#[test]
fn lines_are_appended_to_what_is_there() {
    let mut out = b"kept\n".to_vec();
    let stats = carve(b"<p/>", &mut out, &options(&["p"]), &float_text).unwrap();
    assert_eq!(out, b"kept\nnull\n");
    assert_eq!(stats.bytes_read, 4);
}

#[test]
fn failures_print_like_their_cause() {
    let err = carve(b"", &mut Vec::new(), &options(&["p"]), &float_text).unwrap_err();
    assert_eq!(err.to_string(), "line 1: no XML element found in input");
    let err = CarveError::Io(OutputError {
        message: "disk full".into(),
        broken_pipe: false,
    });
    assert_eq!(err.to_string(), "output error: disk full");
    assert_eq!(
        CarveStats::default(),
        CarveStats {
            records_matched: 0,
            records_written: 0,
            bytes_read: 0
        }
    );
}

#[test]
fn comments_and_outer_text_flow_past() {
    let plain = "<r><p>ab</p><q/><p/></r>";
    let noisy = "<?xml version='1.0'?><!DOCTYPE r><!-- p --><r>text<p>a<!-- c -->b<?x?></p>\
                 <q><![CDATA[<p>]]></q> <p/></r><!-- end -->";
    let (out, _) = run(plain, &["p"], |_| {});
    assert_eq!(out, "\"ab\"\nnull\n");
    let (noisy_out, _) = run(noisy, &["p"], |_| {});
    assert_eq!(noisy_out, out);
}

#[test]
fn a_record_is_the_same_wherever_it_stands() {
    let element = "<p a='1'>x<b/>y</p>";
    let (alone, _) = run(element, &["p"], |_| {});
    for doc in [
        format!("<r>{element}</r>"),
        format!("<r>text<q z='2'>{element}</q>text</r>"),
        format!("<q/>{element}<q/>"),
    ] {
        let (out, _) = run(&doc, &["p"], |_| {});
        assert_eq!(out, alone);
    }
}

#[test]
fn a_window_holds_the_bytes_of_the_whole_output() {
    let doc = "<r><p>1.50</p><p a='1e3'>x</p><p>1e999</p><p>\n</p><p/></r>";
    let whole = |o: &mut CarveOptions| o.map.infer_types = true;
    let (all, _) = run(doc, &["p"], whole);
    // The same run gives the same bytes.
    assert_eq!(run(doc, &["p"], whole).0, all);
    let lines: Vec<&str> = all.split_inclusive('\n').collect();
    for skip in 0..7 {
        for limit in [None, Some(1), Some(3), Some(9)] {
            let (out, _) = run(doc, &["p"], |o| {
                o.map.infer_types = true;
                o.skip = skip;
                o.limit = limit;
            });
            let take = limit.unwrap_or(u64::MAX) as usize;
            let wanted: String = lines.iter().copied().skip(skip as usize).take(take).collect();
            assert_eq!(out, wanted);
        }
    }
}

#[test]
fn a_window_fails_as_the_whole_run_does_unless_its_limit_comes_first() {
    let doc = "<r><p>1</p><p>2</p></oops>";
    let fails = |skip, limit| {
        let mut opts = options(&["p"]);
        opts.skip = skip;
        opts.limit = limit;
        carve(doc.as_bytes(), &mut Vec::new(), &opts, &float_text)
    };
    let whole = fails(0, None).unwrap_err();
    assert_eq!(fails(1, None).unwrap_err(), whole);
    assert_eq!(fails(1, Some(2)).unwrap_err(), whole);
    assert_eq!(fails(0, Some(2)).unwrap().records_written, 2);
    assert_eq!(fails(1, Some(1)).unwrap().records_written, 1);
}
