//! The suggestion heuristic gets fixture shapes modeled on real dumps:
//! wiki exports, feeds, and flat log streams.

use xmlcarve::inspect::{inspect, InspectOptions, Inspector, Pulled, Report};

fn report(doc: &str) -> Report {
    inspect(doc.as_bytes(), &InspectOptions::default()).expect("inspect should succeed")
}

#[test]
fn counts_every_distinct_path_in_document_order() {
    let doc = "<r><a><b/></a><a><b/><b/></a></r>";
    let rep = report(doc);
    let as_pairs: Vec<(&str, u64)> = rep
        .paths
        .iter()
        .map(|p| (p.path.as_str(), p.count))
        .collect();
    assert_eq!(as_pairs, vec![("r", 1), ("r/a", 2), ("r/a/b", 3)]);
    assert_eq!(rep.elements_seen, 6);
    assert!(!rep.truncated);
    // Attribute-bearing occurrences are tallied separately.
    let rep = report("<r><i k=\"1\"/><i/><i k=\"2\"/></r>");
    let i = rep.paths.iter().find(|p| p.path == "r/i").unwrap();
    assert_eq!(i.count, 3);
    assert_eq!(i.with_attrs, 2);
}

#[test]
fn wiki_shaped_dump_suggests_the_page_path() {
    let doc = "<mediawiki><siteinfo><sitename>W</sitename></siteinfo>\
               <page><title>A</title></page><page><title>B</title></page></mediawiki>";
    assert_eq!(report(doc).suggestion.as_deref(), Some("mediawiki/page"));
}

#[test]
fn repeated_leaves_do_not_beat_the_record_element() {
    // Each page holds 3 links, so <l> occurs 6 times vs 2 pages — but a
    // record element sits near the root; the shallower repeating path
    // must win over the noisier deep one.
    let doc = "<w><page><l/><l/><l/></page><page><l/><l/><l/></page></w>";
    assert_eq!(report(doc).suggestion.as_deref(), Some("w/page"));
}

#[test]
fn equal_depth_candidates_are_ranked_by_count() {
    // A repeated header pair must not outrank the fiftyfold row —
    // at equal depth the higher count is the record.
    let mut doc = String::from("<r><h><k/><k/></h><d>");
    for _ in 0..50 {
        doc.push_str("<row/>");
    }
    doc.push_str("</d></r>");
    assert_eq!(report(&doc).suggestion.as_deref(), Some("r/d/row"));
}

#[test]
fn rootless_event_stream_suggests_the_repeated_root() {
    let doc = "<event id=\"1\"/><event id=\"2\"/><event id=\"3\"/>";
    assert_eq!(report(doc).suggestion.as_deref(), Some("event"));
}

#[test]
fn single_record_documents_yield_no_suggestion() {
    // Nothing repeats: there is no "record element" to find, and a wrong
    // guess would be worse than none.
    let doc = "<config><host>a</host><port>1</port></config>";
    assert_eq!(report(doc).suggestion, None);
}

#[test]
fn limit_truncates_the_scan_and_reports_it() {
    let doc = "<r><a/><a/><a/><a/><a/></r>";
    let rep = inspect(
        doc.as_bytes(),
        &InspectOptions {
            limit: Some(3),
            ..InspectOptions::default()
        },
    )
    .unwrap();
    assert!(rep.truncated);
    assert_eq!(rep.elements_seen, 3);
    assert!(rep.bytes_read < doc.len() as u64);
    // Counts reflect what was seen, not the whole file.
    assert_eq!(rep.paths.iter().find(|p| p.path == "r/a").unwrap().count, 2);
}

#[test]
fn deep_tie_breaks_prefer_the_shallower_path() {
    // Both b and c occur twice more than their parents; same count.
    // The shallower one is the better record candidate.
    let doc = "<r><b><c/></b><b><c/></b></r>";
    assert_eq!(report(doc).suggestion.as_deref(), Some("r/b"));
}

#[test]
fn parse_errors_propagate_with_line_numbers() {
    let err = inspect("<a>\n</b>".as_bytes(), &InspectOptions::default()).unwrap_err();
    assert_eq!(err.line, 2);
}

#[test]
fn counts_add_up_and_paths_are_distinct() {
    let rep = report("<r><a x='1'><b/><b/></a><a/><c><b/></c></r><r/>");
    let total: u64 = rep.paths.iter().map(|p| p.count).sum();
    assert_eq!(total, rep.elements_seen);
    for (i, p) in rep.paths.iter().enumerate() {
        assert!(p.with_attrs <= p.count && p.count >= 1);
        assert!(rep.paths[..i].iter().all(|q| q.path != p.path));
    }
    let order: Vec<&str> = rep.paths.iter().map(|p| p.path.as_str()).collect();
    assert_eq!(order, vec!["r", "r/a", "r/a/b", "r/c", "r/c/b"]);
}

#[test]
fn chunk_sizes_make_no_difference_to_the_profile() {
    let doc = "<r><a x='1'><b/><b/></a><a/><c><b/></c></r>";
    for limit in [None, Some(4)] {
        let opts = InspectOptions {
            limit,
            ..InspectOptions::default()
        };
        let whole = inspect(doc.as_bytes(), &opts).unwrap();
        for size in 1..doc.len() {
            let mut inspector = Inspector::new(&opts);
            let mut chunks = doc.as_bytes().chunks(size);
            loop {
                match inspector.pull() {
                    Pulled::NeedInput => match chunks.next() {
                        Some(chunk) => inspector.feed(chunk),
                        None => inspector.close(),
                    },
                    Pulled::Done => break,
                    Pulled::Failed(e) => panic!("{e:?}"),
                }
            }
            assert_eq!(inspector.report(), whole);
        }
    }
}

#[test]
fn damage_behind_the_limit_is_not_seen() {
    let opts = InspectOptions {
        limit: Some(2),
        ..InspectOptions::default()
    };
    let rep = inspect(b"<r><a/></oops>", &opts).unwrap();
    assert!(rep.truncated);
    assert_eq!(rep.elements_seen, 2);
    assert_eq!(rep.bytes_read, 7);
    let rep = inspect(b"<r><a/></r>", &InspectOptions::default()).unwrap();
    assert_eq!(rep.bytes_read, 11);
}

#[test]
fn of_equal_candidates_the_first_is_suggested() {
    let doc = "<r><b/><a/><b/><a/></r>";
    assert_eq!(report(doc).suggestion.as_deref(), Some("r/b"));
    let doc = "<r><b/><a/><b/><a/><a/></r>";
    assert_eq!(report(doc).suggestion.as_deref(), Some("r/a"));
}

#[test]
fn lenient_profiles_pass_unknown_entities() {
    let mut opts = InspectOptions::default();
    assert!(inspect(b"<a>&nbsp;</a>", &opts).is_err());
    opts.parser.lenient_entities = true;
    assert!(inspect(b"<a>&nbsp;</a>", &opts).is_ok());
}
