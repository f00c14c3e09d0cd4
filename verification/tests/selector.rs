//! Matching is over the element *path stack*, so tests build paths the
//! same way the carve driver does: one name per open element.

use xmlcarve::selector::{any_match, Selector};

fn path(parts: &[&str]) -> Vec<String> {
    parts.iter().map(|s| s.to_string()).collect()
}

#[test]
fn bare_name_matches_at_any_depth() {
    let s = Selector::parse("page").unwrap();
    assert!(s.matches(&path(&["page"])));
    assert!(s.matches(&path(&["mediawiki", "page"])));
    assert!(s.matches(&path(&["a", "b", "c", "page"])));
    assert!(!s.matches(&path(&["pages"])));
    assert!(!s.matches(&path(&["page", "title"])));
}

#[test]
fn relative_path_matches_as_a_suffix() {
    let s = Selector::parse("mediawiki/page").unwrap();
    assert!(s.matches(&path(&["mediawiki", "page"])));
    assert!(s.matches(&path(&["export", "mediawiki", "page"])));
    assert!(!s.matches(&path(&["mediawiki", "siteinfo", "page"])));
    // A suffix longer than the path can never match (and must not panic).
    assert!(!s.matches(&path(&["page"])));
}

#[test]
fn anchored_path_matches_only_from_the_root() {
    let s = Selector::parse("/root/items/item").unwrap();
    assert!(s.matches(&path(&["root", "items", "item"])));
    assert!(!s.matches(&path(&["outer", "root", "items", "item"])));
    assert!(!s.matches(&path(&["root", "items"])));
}

#[test]
fn wildcard_segment_matches_any_single_name() {
    let s = Selector::parse("*/entry").unwrap();
    assert!(s.matches(&path(&["feed", "entry"])));
    assert!(s.matches(&path(&["a", "b", "entry"])));
    // The wildcard still requires *some* parent: a root-level entry has
    // no element above it.
    assert!(!s.matches(&path(&["entry"])));
    // A lone unanchored "*" is legal — it means "every outermost
    // element", useful with --limit for eyeballing unfamiliar files.
    let all = Selector::parse("*").unwrap();
    assert!(all.matches(&path(&["anything"])));
    assert!(all.matches(&path(&["a", "b"])));
}

#[test]
fn anchored_wildcard_pins_the_depth() {
    let s = Selector::parse("/*/row").unwrap();
    assert!(s.matches(&path(&["table", "row"])));
    assert!(!s.matches(&path(&["db", "table", "row"])));
}

#[test]
fn surrounding_whitespace_is_tolerated() {
    let s = Selector::parse("  feed/entry ").unwrap();
    assert!(s.matches(&path(&["feed", "entry"])));
    assert_eq!(s.to_string(), "feed/entry");
}

#[test]
fn degenerate_and_xpath_flavored_selectors_are_rejected_with_reasons() {
    assert!(Selector::parse("").unwrap_err().contains("empty"));
    assert!(Selector::parse("   ").unwrap_err().contains("empty"));
    assert!(Selector::parse("/")
        .unwrap_err()
        .contains("no element names"));
    assert!(Selector::parse("a//b")
        .unwrap_err()
        .contains("empty segment"));
    // "/*" would emit every element as a record — always a user mistake.
    assert!(Selector::parse("/*").unwrap_err().contains("every element"));
    let err = Selector::parse("page[@id='1']").unwrap_err();
    assert!(
        err.contains("XPath"),
        "should point at the XPath limitation: {err}"
    );
    assert!(Selector::parse("pa*ge").is_err());
}

#[test]
fn any_match_checks_the_whole_selector_set() {
    let sels = vec![
        Selector::parse("page").unwrap(),
        Selector::parse("entry").unwrap(),
    ];
    assert!(any_match(&sels, &path(&["feed", "entry"])));
    assert!(any_match(&sels, &path(&["wiki", "page"])));
    assert!(!any_match(&sels, &path(&["wiki", "site"])));
    assert!(!any_match(&[], &path(&["page"])));
}

#[test]
fn printed_selectors_parse_back() {
    for source in ["page", " a / b ", "/root/*/item", "*", "\tfeed/entry\n"] {
        let selector = Selector::parse(source).unwrap();
        assert_eq!(selector.to_string(), source.trim());
        assert_eq!(Selector::parse(&selector.to_string()).unwrap(), selector);
    }
}

#[test]
fn segments_are_trimmed_one_by_one() {
    let s = Selector::parse("a / b").unwrap();
    assert!(s.matches(&path(&["a", "b"])));
    assert!(!s.matches(&path(&["a ", " b"])));
}

#[test]
fn outer_elements_matter_to_anchored_selectors_only() {
    let relative = Selector::parse("b/c").unwrap();
    let anchored = Selector::parse("/b/c").unwrap();
    let short = path(&["b", "c"]);
    let long = path(&["a", "b", "c"]);
    assert!(relative.matches(&short) && relative.matches(&long));
    assert!(anchored.matches(&short) && !anchored.matches(&long));
    assert!(!relative.matches(&[]) && !anchored.matches(&[]));
}

#[test]
fn each_refused_selector_has_its_message() {
    let fails = |source: &str| Selector::parse(source).unwrap_err();
    assert_eq!(fails(" "), "selector is empty");
    assert_eq!(fails(" / "), "selector '/' has no element names");
    assert_eq!(
        fails("a//b"),
        "selector 'a//b' contains an empty segment ('//')"
    );
    assert_eq!(
        fails("a/b/"),
        "selector 'a/b/' contains an empty segment ('//')"
    );
    assert_eq!(
        fails("a/b*/"),
        "selector segment 'b*' is not supported: use plain element names and '*' \
         (full XPath predicates are out of scope)"
    );
    assert_eq!(
        fails("/*/*"),
        "selector '/*/*' matches every element; anchor it with at least one name"
    );
    for source in ["[", "]", "@id", "**"] {
        assert!(fails(source).contains("XPath"));
    }
}
