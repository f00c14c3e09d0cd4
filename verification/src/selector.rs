//! Record-element selectors: which subtrees become JSONL records.
//!
//! The grammar is deliberately tiny (`/`-separated element names with `*`
//! wildcards) because picking the record element of a dump should never
//! require learning XPath:
//!
//! - `page`: any element named `page`, at any depth.
//! - `mediawiki/page`: a `page` whose direct parent is `mediawiki`
//!   (relative: matched as a suffix of the element path).
//! - `/root/items/item`: anchored at the document root (leading `/`).
//! - `*/entry`: an `entry` under any parent.

use vstd::prelude::*;
use vstd::slice::slice_subrange;

use crate::text;
use crate::text::{chars_of, find_char, has_char, join3, same, string_of, trimmed};

verus! {

/// What a selector says: its segments from the outermost to the record
/// element itself (`None` for a wildcard), whether they start at the document
/// root, and how it was written.
#[verifier::ext_equal]
pub struct Pattern {
    pub segments: Seq<Option<Seq<char>>>,
    pub anchored: bool,
    pub source: Seq<char>,
}

/// The characters that a segment cannot hold, except for a `*` on its own.
pub open spec fn has_predicate(part: Seq<char>) -> bool {
    part.contains('*') || part.contains('[') || part.contains(']') || part.contains('@')
}

/// What the trimmed text between two slashes stands for.
pub open spec fn segment(part: Seq<char>, source: Seq<char>) -> Result<
    Option<Seq<char>>,
    Seq<char>,
> {
    if part.len() == 0 {
        Err("selector '"@ + source + "' contains an empty segment ('//')"@)
    } else if part == seq!['*'] {
        Ok(None)
    } else if has_predicate(part) {
        Err(
            "selector segment '"@ + part
                + "' is not supported: use plain element names and '*' (full XPath predicates are out of scope)"@,
        )
    } else {
        Ok(Some(part))
    }
}

/// `r` with the segments `done` in front of it.
pub open spec fn preceded(
    done: Seq<Option<Seq<char>>>,
    r: Result<Seq<Option<Seq<char>>>, Seq<char>>,
) -> Result<Seq<Option<Seq<char>>>, Seq<char>> {
    match r {
        Ok(rest) => Ok(done + rest),
        Err(message) => Err(message),
    }
}

/// The segments of a `/`-separated list, or the complaint about the first
/// part that is none.
pub open spec fn segments(body: Seq<char>, source: Seq<char>) -> Result<
    Seq<Option<Seq<char>>>,
    Seq<char>,
>
    decreases body.len(),
    via segments_decreases
{
    match text::index_of(body, '/') {
        None => match segment(text::trim(body), source) {
            Err(message) => Err(message),
            Ok(last) => Ok(seq![last]),
        },
        Some(i) => match segment(text::trim(body.take(i)), source) {
            Err(message) => Err(message),
            Ok(first) => preceded(seq![first], segments(body.skip(i + 1), source)),
        },
    }
}

#[via_fn]
proof fn segments_decreases(body: Seq<char>, source: Seq<char>) {
    text::lemma_first_where_found(body, text::equal_to('/'));
}

/// No segment names an element.
pub open spec fn all_wildcards(segments: Seq<Option<Seq<char>>>) -> bool {
    forall|i: int| 0 <= i < segments.len() ==> (#[trigger] segments[i]) is None
}

/// What a selector string means, or why it is refused.
pub open spec fn parsed(input: Seq<char>) -> Result<Pattern, Seq<char>> {
    let source = text::trim(input);
    let anchored = source.len() > 0 && source[0] == '/';
    let body = if anchored {
        source.skip(1)
    } else {
        source
    };
    if source.len() == 0 {
        Err("selector is empty"@)
    } else if body.len() == 0 {
        Err("selector '"@ + source + "' has no element names"@)
    } else {
        match segments(body, source) {
            Err(message) => Err(message),
            Ok(found) => if anchored && all_wildcards(found) {
                Err(
                    "selector '"@ + source
                        + "' matches every element; anchor it with at least one name"@,
                )
            } else {
                Ok(Pattern { segments: found, anchored, source })
            },
        }
    }
}

/// The last names of `path` fit the segments one for one; from the root on,
/// if the pattern is anchored.
pub open spec fn selects(p: Pattern, path: Seq<Seq<char>>) -> bool {
    &&& p.segments.len() <= path.len()
    &&& p.anchored ==> p.segments.len() == path.len()
    &&& forall|i: int|
        0 <= i < p.segments.len() ==> ((#[trigger] p.segments[i]) matches Some(name) ==> name
            == path[path.len() - p.segments.len() + i])
}

/// Some pattern of the set selects `path`.
pub open spec fn any_selects(patterns: Seq<Pattern>, path: Seq<Seq<char>>) -> bool {
    exists|i: int| 0 <= i < patterns.len() && selects(#[trigger] patterns[i], path)
}

/// The patterns of a list of selectors.
pub open spec fn patterns(selectors: Seq<Selector>) -> Seq<Pattern> {
    selectors.map_values(|s: Selector| s@)
}

#[derive(Debug, Clone, PartialEq)]
enum Segment {
    Name(String),
    Wildcard,
}

impl Segment {
    spec fn name(self) -> Option<Seq<char>> {
        match self {
            Segment::Name(s) => Some(s@),
            Segment::Wildcard => None,
        }
    }
}

spec fn names(segments: Seq<Segment>) -> Seq<Option<Seq<char>>> {
    segments.map_values(|s: Segment| s.name())
}

/// A parsed selector: match kind plus name segments.
#[derive(Debug, Clone, PartialEq)]
pub struct Selector {
    segments: Vec<Segment>,
    anchored: bool,
    source: String,
}

impl View for Selector {
    type V = Pattern;

    closed spec fn view(&self) -> Pattern {
        Pattern {
            segments: names(self.segments@),
            anchored: self.anchored,
            source: self.source@,
        }
    }
}

/// The outcome of parsing, over mathematical values.
pub open spec fn outcome(r: Result<Selector, String>) -> Result<Pattern, Seq<char>> {
    match r {
        Ok(selector) => Ok(selector@),
        Err(message) => Err(message@),
    }
}

/// What the trimmed text between two slashes stands for.
fn read_segment(part: &[char], source: &str) -> (r: Result<Segment, String>)
    ensures
        match r {
            Ok(s) => segment(part@, source@) == Ok::<Option<Seq<char>>, Seq<char>>(s.name()),
            Err(message) => segment(part@, source@) == Err::<Option<Seq<char>>, Seq<char>>(
                message@,
            ),
        },
{
    if part.len() == 0 {
        return Err(join3("selector '", source, "' contains an empty segment ('//')"));
    }
    if part.len() == 1 && part[0] == '*' {
        assert(part@ =~= seq!['*']);
        return Ok(Segment::Wildcard);
    }
    assert(part@ != seq!['*']) by {
        assert(part@.len() != 1 || part@[0] != seq!['*'][0]);
    }
    if has_char(part, '*') || has_char(part, '[') || has_char(part, ']') || has_char(part, '@') {
        return Err(
            join3(
                "selector segment '",
                &string_of(part),
                "' is not supported: use plain element names and '*' (full XPath predicates are out of scope)",
            ),
        );
    }
    Ok(Segment::Name(string_of(part)))
}

impl Selector {
    /// Parse a selector string. Errors are meant for direct CLI display.
    pub fn parse(input: &str) -> (r: Result<Selector, String>)
        ensures
            outcome(r) == parsed(input@),
    {
        let chars = chars_of(input);
        let source_chars = trimmed(&chars);
        if source_chars.len() == 0 {
            return Err("selector is empty".to_owned());
        }
        let source = string_of(source_chars);
        let anchored = source_chars[0] == '/';
        let mut rest: &[char] = if anchored {
            slice_subrange(source_chars, 1, source_chars.len())
        } else {
            source_chars
        };
        if rest.len() == 0 {
            return Err(join3("selector '", &source, "' has no element names"));
        }
        let ghost body = rest@;
        let mut found: Vec<Segment> = Vec::new();
        let mut named = false;
        let mut more = true;
        assert(preceded(names(found@), segments(body, source@)) =~= segments(body, source@)) by {
            if let Ok(rest) = segments(body, source@) {
                assert(names(found@) + rest =~= rest);
            }
        }
        while more
            invariant
                more ==> segments(body, source@) == preceded(
                    names(found@),
                    segments(rest@, source@),
                ),
                !more ==> segments(body, source@) == Ok::<Seq<Option<Seq<char>>>, Seq<char>>(
                    names(found@),
                ),
                named == !all_wildcards(names(found@)),
                source@ == text::trim(input@),
                source@.len() > 0,
                anchored == (source@[0] == '/'),
                body == (if anchored {
                    source@.skip(1)
                } else {
                    source@
                }),
                body.len() > 0,
            decreases
                rest@.len(),
                (if more {
                    1int
                } else {
                    0int
                }),
        {
            let slash = find_char(rest, '/');
            let part = match slash {
                Some(i) => slice_subrange(rest, 0, i),
                None => rest,
            };
            let next = match read_segment(trimmed(part), &source) {
                Ok(next) => next,
                Err(message) => return Err(message),
            };
            let ghost before = names(found@);
            if let Segment::Name(_) = next {
                named = true;
            }
            found.push(next);
            assert(names(found@) =~= before.push(next.name()));
            assert(named == !all_wildcards(names(found@))) by {
                assert(names(found@).last() == next.name());
                assert forall|i: int| 0 <= i < before.len() implies before[i] == names(found@)[i] by {}
                if !all_wildcards(before) {
                    let i = choose|i: int| 0 <= i < before.len() && !(before[i] is None);
                    assert(names(found@)[i] is Some);
                }
            }
            match slash {
                Some(i) => {
                    let ghost tail = segments(rest@.skip(i + 1), source@);
                    proof {
                        if let Ok(t) = tail {
                            assert(before + (seq![next.name()] + t) =~= names(found@) + t);
                        }
                    }
                    assert(i < rest.len());
                    rest = slice_subrange(rest, i + 1, rest.len());
                },
                None => {
                    more = false;
                    assert(before + seq![next.name()] =~= names(found@));
                },
            }
        }
        if anchored && !named {
            return Err(
                join3(
                    "selector '",
                    &source,
                    "' matches every element; anchor it with at least one name",
                ),
            );
        }
        Ok(Selector { segments: found, anchored, source })
    }

    /// The selector as it was written, without surrounding white space.
    pub fn to_string(&self) -> (r: String)
        ensures
            r@ == self@.source,
    {
        self.source.clone()
    }

    /// Does the current element path (root first, current element last)
    /// select a record rooted at the last path entry?
    pub fn matches(&self, path: &[String]) -> (r: bool)
        ensures
            r == selects(self@, text::views(path@)),
    {
        if self.anchored {
            self.segments.len() == path.len() && self.tail_matches(path)
        } else {
            self.segments.len() <= path.len() && self.tail_matches(path)
        }
    }

    fn tail_matches(&self, path: &[String]) -> (r: bool)
        requires
            self.segments@.len() <= path@.len(),
        ensures
            r == forall|i: int|
                0 <= i < self@.segments.len() ==> ((#[trigger] self@.segments[i]) matches Some(name)
                    ==> name == text::views(path@)[path@.len() - self@.segments.len() + i]),
    {
        let ghost views = text::views(path@);
        let first: usize = path.len() - self.segments.len();
        let mut i: usize = 0;
        while i < self.segments.len()
            invariant
                i <= self.segments@.len(),
                first == path@.len() - self.segments@.len(),
                views == text::views(path@),
                forall|j: int|
                    0 <= j < i ==> ((#[trigger] self@.segments[j]) matches Some(name) ==> name
                        == views[first + j]),
            decreases self.segments@.len() - i,
        {
            assert(self@.segments[i as int] == self.segments@[i as int].name());
            if let Segment::Name(name) = &self.segments[i] {
                assert(first + i < path.len());
                if !same(name, &path[first + i]) {
                    return false;
                }
            }
            i = i + 1;
        }
        true
    }
}

/// True if any selector in the set matches the path.
pub fn any_match(selectors: &[Selector], path: &[String]) -> (r: bool)
    ensures
        r == any_selects(patterns(selectors@), text::views(path@)),
{
    let mut i: usize = 0;
    while i < selectors.len()
        invariant
            i <= selectors@.len(),
            forall|j: int|
                0 <= j < i ==> !selects(
                    #[trigger] patterns(selectors@)[j],
                    text::views(path@),
                ),
        decreases selectors@.len() - i,
    {
        assert(patterns(selectors@)[i as int] == selectors@[i as int]@);
        if selectors[i].matches(path) {
            return true;
        }
        i = i + 1;
    }
    false
}

/// A relative selector looks at the end of the path alone: more elements
/// around the path change nothing.
pub proof fn law_relative_selectors_match_at_any_depth(
    p: Pattern,
    outer: Seq<Seq<char>>,
    path: Seq<Seq<char>>,
)
    requires
        !p.anchored,
        p.segments.len() <= path.len(),
    ensures
        selects(p, outer + path) == selects(p, path),
{
    let whole = outer + path;
    let n = p.segments.len();
    assert forall|i: int| 0 <= i < n implies whole[whole.len() - n + i] == path[path.len() - n
        + i] && #[trigger] p.segments[i] == p.segments[i] by {}
}

/// An anchored selector matches at one depth only, and there it matches what
/// the same segments match without the anchor.
pub proof fn law_anchored_selectors_match_from_the_root(
    p: Pattern,
    relative: Pattern,
    path: Seq<Seq<char>>,
)
    requires
        p.anchored,
        !relative.anchored,
        p.segments == relative.segments,
    ensures
        selects(p, path) <==> path.len() == p.segments.len() && selects(relative, path),
{
}

/// Every part of a segment list is a wildcard or a name without white space
/// around it and without a character of XPath.
proof fn lemma_segments(body: Seq<char>, source: Seq<char>)
    ensures
        segments(body, source) matches Ok(found) ==> found.len() > 0 && forall|i: int|
            0 <= i < found.len() ==> ((#[trigger] found[i]) matches Some(name) ==> name.len() > 0
                && !has_predicate(name)),
    decreases body.len(),
{
    text::lemma_first_where_found(body, text::equal_to('/'));
    if let Some(i) = text::index_of(body, '/') {
        lemma_segments(body.skip(i + 1), source);
    }
}

/// A selector that parses has a segment; its names are not empty and hold
/// nothing of XPath; and it does not select every element by an anchor alone.
pub proof fn law_parsed_selectors_are_sound(input: Seq<char>)
    ensures
        parsed(input) matches Ok(p) ==> {
            &&& p.segments.len() > 0
            &&& p.anchored ==> !all_wildcards(p.segments)
            &&& forall|i: int|
                0 <= i < p.segments.len() ==> ((#[trigger] p.segments[i]) matches Some(name)
                    ==> name.len() > 0 && !has_predicate(name))
        },
{
    let source = text::trim(input);
    lemma_segments(source, source);
    lemma_segments(source.skip(1), source);
}

/// White space around a selector means nothing, and the form that a selector
/// prints parses back to the same selector.
pub proof fn law_printed_selectors_parse_back(input: Seq<char>)
    ensures
        parsed(text::trim(input)) == parsed(input),
        parsed(input) matches Ok(p) ==> parsed(p.source) == Ok::<Pattern, Seq<char>>(p),
{
    text::lemma_trim_is_final(input);
}

/// Several selectors select the union of what each of them selects.
pub proof fn law_selector_sets_unite(a: Seq<Pattern>, b: Seq<Pattern>, path: Seq<Seq<char>>)
    ensures
        any_selects(a + b, path) == (any_selects(a, path) || any_selects(b, path)),
{
    let all = a + b;
    if any_selects(a, path) {
        let i = choose|i: int| 0 <= i < a.len() && selects(#[trigger] a[i], path);
        assert(selects(all[i], path));
    }
    if any_selects(b, path) {
        let i = choose|i: int| 0 <= i < b.len() && selects(#[trigger] b[i], path);
        assert(selects(all[a.len() + i], path));
    }
    if any_selects(all, path) {
        let i = choose|i: int| 0 <= i < all.len() && selects(#[trigger] all[i], path);
        if i < a.len() {
            assert(selects(a[i], path));
        } else {
            assert(selects(b[i - a.len()], path));
        }
    }
}

/// Every segment counts: a pattern with a name that differs from the one at
/// its place, wherever in the pattern it stands, does not select the path; nor
/// does a pattern that is longer than the path, or anchored and shorter.
pub proof fn law_every_segment_counts(p: Pattern, path: Seq<Seq<char>>, k: int)
    requires
        path.len() < p.segments.len() || (p.anchored && path.len() != p.segments.len()) || (0 <= k
            < p.segments.len() && p.segments[k] is Some && p.segments[k] != Some(
            path[path.len() - p.segments.len() + k],
        )),
    ensures
        !selects(p, path),
{
    if 0 <= k < p.segments.len() && p.segments[k] is Some {
        let name = p.segments[k]->0;
        assert(p.segments[k] == Some(name));
    }
}

/// A pattern made of the last names of a path selects it, with any of them
/// replaced by a wildcard; anchored, if they are all of its names.
pub proof fn law_own_names_select(
    path: Seq<Seq<char>>,
    n: int,
    wild: spec_fn(int) -> bool,
    anchored: bool,
    source: Seq<char>,
)
    requires
        0 <= n <= path.len(),
        anchored ==> n == path.len(),
    ensures
        selects(
            Pattern {
                segments: Seq::new(
                    n as nat,
                    |k: int|
                        if wild(k) {
                            None
                        } else {
                            Some(path[path.len() - n + k])
                        },
                ),
                anchored,
                source,
            },
            path,
        ),
{
}

/// A set of one selector selects what that one selects; the empty set selects
/// nothing.
pub proof fn law_single_selectors(p: Pattern, path: Seq<Seq<char>>)
    ensures
        any_selects(seq![p], path) == selects(p, path),
        !any_selects(seq![], path),
{
    assert(seq![p][0] == p);
}

/// A segment as it is written.
pub open spec fn segment_text(segment: Option<Seq<char>>) -> Seq<char> {
    match segment {
        Some(name) => name,
        None => seq!['*'],
    }
}

/// Segments as they are written, with slashes between them.
pub open spec fn segments_text(segments: Seq<Option<Seq<char>>>) -> Seq<char>
    decreases segments.len(),
{
    if segments.len() == 0 {
        seq![]
    } else if segments.len() == 1 {
        segment_text(segments[0])
    } else {
        segment_text(segments[0]) + seq!['/'] + segments_text(segments.skip(1))
    }
}

/// A name that a selector can hold: not empty, without white space around it,
/// without a slash and without a character of XPath.
pub open spec fn is_plain_name(name: Seq<char>) -> bool {
    &&& name.len() > 0
    &&& !text::is_white(name[0])
    &&& !text::is_white(name.last())
    &&& forall|i: int|
        0 <= i < name.len() ==> {
            let c = #[trigger] name[i];
            c != '/' && c != '*' && c != '[' && c != ']' && c != '@'
        }
}

/// Segments that can be written.
pub open spec fn writable(segments: Seq<Option<Seq<char>>>) -> bool {
    &&& segments.len() > 0
    &&& forall|i: int|
        0 <= i < segments.len() ==> ((#[trigger] segments[i]) matches Some(name) ==> is_plain_name(
            name,
        ))
}

proof fn lemma_trimmed(s: Seq<char>)
    requires
        s.len() > 0,
        !text::is_white(s[0]),
        !text::is_white(s.last()),
    ensures
        text::trim(s) == s,
{
}

/// A written segment is read as what it is.
proof fn lemma_segment_text(seg: Option<Seq<char>>, source: Seq<char>)
    requires
        seg matches Some(name) ==> is_plain_name(name),
    ensures
        segment(text::trim(segment_text(seg)), source) == Ok::<Option<Seq<char>>, Seq<char>>(seg),
        segment_text(seg).len() > 0,
        !text::is_white(segment_text(seg)[0]),
        !text::is_white(segment_text(seg).last()),
        forall|i: int|
            0 <= i < segment_text(seg).len() ==> #[trigger] segment_text(seg)[i] != '/',
{
    lemma_trimmed(segment_text(seg));
    if let Some(name) = seg {
        assert(name != seq!['*']) by {
            if name == seq!['*'] {
                assert(name[0] == '*');
            }
        }
        assert forall|c: char| c == '*' || c == '[' || c == ']' || c == '@' implies !name.contains(
            c,
        ) by {}
    }
}

proof fn lemma_segments_text(segs: Seq<Option<Seq<char>>>, source: Seq<char>)
    requires
        writable(segs),
    ensures
        segments(segments_text(segs), source) == Ok::<Seq<Option<Seq<char>>>, Seq<char>>(segs),
        segments_text(segs).len() > 0,
        segments_text(segs)[0] != '/',
        !text::is_white(segments_text(segs)[0]),
        !text::is_white(segments_text(segs).last()),
    decreases segs.len(),
{
    let s = segments_text(segs);
    let first = segment_text(segs[0]);
    let slash = text::equal_to('/');
    lemma_segment_text(segs[0], source);
    assert forall|i: int| 0 <= i < first.len() implies !slash(#[trigger] s[i]) by {
        assert(s[i] == first[i]);
    }
    assert(s[0] == first[0]);
    if segs.len() == 1 {
        text::lemma_first_where_none(s, slash);
        assert(segs =~= seq![segs[0]]);
    } else {
        let rest = segs.skip(1);
        assert forall|i: int| 0 <= i < rest.len() implies ((#[trigger] rest[i]) matches Some(
            name,
        ) ==> is_plain_name(name)) by {
            assert(rest[i] == segs[i + 1]);
        }
        lemma_segments_text(rest, source);
        let n = first.len() as int;
        assert(s[n] == '/');
        text::lemma_first_where(s, slash, n);
        assert(s.take(n) =~= first);
        assert(s.skip(n + 1) =~= segments_text(rest));
        assert(s.last() == segments_text(rest).last());
        assert(segs =~= seq![segs[0]] + rest);
    }
}

/// What is written as a selector is read as that selector: the names and
/// wildcards in their order, anchored when a slash comes first. Only an anchor
/// before nothing but wildcards is refused.
pub proof fn law_written_selectors_are_read(segs: Seq<Option<Seq<char>>>)
    requires
        writable(segs),
    ensures
        parsed(segments_text(segs)) == Ok::<Pattern, Seq<char>>(
            Pattern { segments: segs, anchored: false, source: segments_text(segs) },
        ),
        (exists|i: int| 0 <= i < segs.len() && (#[trigger] segs[i]) is Some) ==> parsed(
            seq!['/'] + segments_text(segs),
        ) == Ok::<Pattern, Seq<char>>(
            Pattern { segments: segs, anchored: true, source: seq!['/'] + segments_text(segs) },
        ),
        (forall|i: int| 0 <= i < segs.len() ==> (#[trigger] segs[i]) is None) ==> parsed(
            seq!['/'] + segments_text(segs),
        ) is Err,
{
    let s = segments_text(segs);
    let a = seq!['/'] + s;
    lemma_segments_text(segs, s);
    lemma_segments_text(segs, a);
    lemma_trimmed(s);
    assert(a[0] == '/' && a.last() == s.last());
    lemma_trimmed(a);
    assert(a.skip(1) =~= s);
}

/// White space that is trimmed holds nothing else.
proof fn lemma_trim_keeps(s: Seq<char>, c: char)
    requires
        s.contains(c),
        !text::is_white(c),
    ensures
        text::trim(s).contains(c),
{
    lemma_trim_start_keeps(s, c);
    lemma_trim_end_keeps(text::trim_start(s), c);
}

proof fn lemma_trim_start_keeps(s: Seq<char>, c: char)
    requires
        s.contains(c),
        !text::is_white(c),
    ensures
        text::trim_start(s).contains(c),
    decreases s.len(),
{
    let i = s.index_of(c);
    assert(s[i] == c);
    if text::is_white(s[0]) {
        assert(s.skip(1)[i - 1] == c);
        lemma_trim_start_keeps(s.skip(1), c);
    }
}

proof fn lemma_trim_end_keeps(s: Seq<char>, c: char)
    requires
        s.contains(c),
        !text::is_white(c),
    ensures
        text::trim_end(s).contains(c),
    decreases s.len(),
{
    let i = s.index_of(c);
    assert(s[i] == c);
    if text::is_white(s.last()) {
        assert(s.drop_last()[i] == c);
        lemma_trim_end_keeps(s.drop_last(), c);
    }
}

proof fn lemma_xpath_in_segments(body: Seq<char>, source: Seq<char>, c: char)
    requires
        body.contains(c),
        c == '[' || c == ']' || c == '@',
    ensures
        segments(body, source) is Err,
    decreases body.len(),
{
    text::lemma_first_where_found(body, text::equal_to('/'));
    let k = body.index_of(c);
    assert(body[k] == c);
    match text::index_of(body, '/') {
        None => {
            lemma_trim_keeps(body, c);
            lemma_xpath_in_segment(text::trim(body), source, c);
        },
        Some(i) => {
            if k < i {
                assert(body.take(i)[k] == c);
                lemma_trim_keeps(body.take(i), c);
                lemma_xpath_in_segment(text::trim(body.take(i)), source, c);
            } else {
                assert(k > i);
                assert(body.skip(i + 1)[k - i - 1] == c);
                lemma_xpath_in_segments(body.skip(i + 1), source, c);
            }
        },
    }
}

proof fn lemma_xpath_in_segment(part: Seq<char>, source: Seq<char>, c: char)
    requires
        part.contains(c),
        c == '[' || c == ']' || c == '@',
    ensures
        segment(part, source) is Err,
{
    if part == seq!['*'] {
        let k = part.index_of(c);
        assert(part[k] == '*');
    }
}

/// A selector with a predicate of XPath anywhere in it is refused.
pub proof fn law_xpath_is_refused(input: Seq<char>, c: char)
    requires
        input.contains(c),
        c == '[' || c == ']' || c == '@',
    ensures
        parsed(input) is Err,
{
    let source = text::trim(input);
    lemma_trim_keeps(input, c);
    let k = source.index_of(c);
    assert(source[k] == c);
    if source[0] == '/' {
        assert(source.skip(1)[k - 1] == c);
        lemma_xpath_in_segments(source.skip(1), source, c);
    } else {
        lemma_xpath_in_segments(source, source, c);
    }
}

proof fn lemma_no_slash(s: Seq<char>)
    requires
        forall|i: int| 0 <= i < s.len() ==> #[trigger] s[i] != '/',
    ensures
        s.filter(text::equal_to('/')).len() == 0,
    decreases s.len(),
{
    reveal(Seq::filter);
    if s.len() > 0 {
        let init = s.drop_last();
        assert forall|i: int| 0 <= i < init.len() implies #[trigger] init[i] != '/' by {
            assert(init[i] == s[i]);
        }
        lemma_no_slash(init);
        assert(s[s.len() - 1] != '/');
    }
}

proof fn lemma_slash_first(s: Seq<char>)
    requires
        s.len() > 0,
        s[0] == '/',
    ensures
        s.filter(text::equal_to('/')).len() == 1 + s.skip(1).filter(text::equal_to('/')).len(),
    decreases s.len(),
{
    reveal(Seq::filter);
    let init = s.drop_last();
    if s.len() == 1 {
        assert(init =~= seq![]);
        assert(s.skip(1) =~= seq![]);
    } else {
        lemma_slash_first(init);
        assert(s.skip(1).drop_last() =~= init.skip(1));
    }
}

proof fn lemma_segments_between(body: Seq<char>, source: Seq<char>)
    ensures
        segments(body, source) matches Ok(found) ==> found.len() == 1 + body.filter(
            text::equal_to('/'),
        ).len(),
    decreases body.len(),
{
    let slash = text::equal_to('/');
    text::lemma_first_where_found(body, slash);
    match text::index_of(body, '/') {
        None => {
            assert forall|i: int| 0 <= i < body.len() implies #[trigger] body[i] != '/' by {
                assert(!slash(body[i]));
            }
            lemma_no_slash(body);
        },
        Some(i) => {
            let front = body.take(i);
            let rest = body.skip(i);
            lemma_segments_between(body.skip(i + 1), source);
            assert forall|k: int| 0 <= k < front.len() implies #[trigger] front[k] != '/' by {
                assert(!slash(body[k]));
            }
            lemma_no_slash(front);
            assert(slash(body[i]));
            lemma_slash_first(rest);
            assert(rest.skip(1) =~= body.skip(i + 1));
            Seq::filter_distributes_over_add(front, rest, slash);
            assert(front + rest =~= body);
        },
    }
}

/// Every slash counts: a selector that parses has a segment between any two
/// slashes, before the first, unless that is an anchor, and behind the last.
pub proof fn law_every_slash_separates(input: Seq<char>)
    ensures
        parsed(input) matches Ok(p) ==> {
            let source = text::trim(input);
            &&& p.source == source
            &&& p.anchored == (source[0] == '/')
            &&& p.segments.len() == source.filter(text::equal_to('/')).len() + if p.anchored {
                0int
            } else {
                1int
            }
        },
{
    let source = text::trim(input);
    if source.len() > 0 && source[0] == '/' {
        lemma_segments_between(source.skip(1), source);
        lemma_slash_first(source);
    } else {
        lemma_segments_between(source, source);
    }
}

} // verus!
