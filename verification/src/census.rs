//! What a profile counts: the elements of a document.
//!
//! [`visits`] lists the elements of a document with their paths, a recursion
//! over the tree. The laws say that the profiler counts just these.

use vstd::prelude::*;

use crate::document;
use crate::inspect;
use crate::inspect::{Survey, Tally};
use crate::markup;
use crate::markup::{EventView, State};
use crate::text;
use crate::tree;
use crate::tree::Node;

verus! {

/// The path of an element inside one at `outer`; nothing is around the
/// outermost.
pub open spec fn path_of(outer: Seq<char>, name: Seq<char>) -> Seq<char> {
    if outer.len() == 0 {
        name
    } else {
        outer + seq!['/'] + name
    }
}

/// The elements in document order, each with its path and whether it has
/// attributes.
pub open spec fn visits(content: Seq<Node>, outer: Seq<char>) -> Seq<(Seq<char>, bool)>
    decreases content,
{
    if content.len() == 0 {
        seq![]
    } else {
        (match content[0] {
            Node::Element { name, attributes, content: inner } => seq![
                (path_of(outer, name), attributes.len() > 0),
            ] + visits(inner, path_of(outer, name)),
            _ => seq![],
        }) + visits(content.drop_first(), outer)
    }
}

/// True of the elements at `path`.
pub open spec fn at_path(path: Seq<char>) -> spec_fn((Seq<char>, bool)) -> bool {
    |v: (Seq<char>, bool)| v.0 == path
}

/// True of the elements at `path` that have attributes.
pub open spec fn with_attributes_at(path: Seq<char>) -> spec_fn((Seq<char>, bool)) -> bool {
    |v: (Seq<char>, bool)| v.0 == path && v.1
}

/// How often an element at `path` with attributes was counted.
pub open spec fn with_attrs_of(tallies: Seq<Tally>, path: Seq<char>) -> int {
    match text::first_where(tallies, inspect::of_path(path)) {
        Some(i) => tallies[i].with_attrs,
        None => 0,
    }
}

/// The tallies after a list of elements.
pub open spec fn tally_all(tallies: Seq<Tally>, list: Seq<(Seq<char>, bool)>) -> Seq<Tally>
    decreases list.len(),
{
    if list.len() == 0 {
        tallies
    } else {
        inspect::tallied(tally_all(tallies, list.drop_last()), list.last().0, list.last().1)
    }
}

proof fn lemma_tally_concat(
    tallies: Seq<Tally>,
    a: Seq<(Seq<char>, bool)>,
    b: Seq<(Seq<char>, bool)>,
)
    ensures
        tally_all(tallies, a + b) == tally_all(tally_all(tallies, a), b),
    decreases b.len(),
{
    if b.len() == 0 {
        assert(a + b =~= a);
    } else {
        lemma_tally_concat(tallies, a, b.drop_last());
        assert((a + b).drop_last() =~= a + b.drop_last());
    }
}

/// One more element with attributes, or without.
proof fn lemma_with_attrs(tallies: Seq<Tally>, path: Seq<char>, has_attrs: bool, other: Seq<char>)
    ensures
        with_attrs_of(inspect::tallied(tallies, path, has_attrs), other) == with_attrs_of(
            tallies,
            other,
        ) + if other == path && has_attrs {
            1int
        } else {
            0int
        },
{
    let after = inspect::tallied(tallies, path, has_attrs);
    let p = inspect::of_path(path);
    let q = inspect::of_path(other);
    text::lemma_first_where_found(tallies, p);
    text::lemma_first_where_found(tallies, q);
    match text::first_where(tallies, q) {
        Some(i) => {
            assert(q(after[i]));
            assert forall|j: int| 0 <= j < i implies !q(#[trigger] after[j]) by {
                assert(!q(tallies[j]));
            }
            text::lemma_first_where(after, q, i);
        },
        None => {
            assert forall|j: int| 0 <= j < tallies.len() implies !q(#[trigger] after[j]) by {
                assert(!q(tallies[j]));
            }
            if other == path {
                assert(text::first_where(tallies, p) is None) by {
                    if let Some(i) = text::first_where(tallies, p) {
                        assert(q(tallies[i]));
                    }
                }
                assert(q(after[tallies.len() as int]));
                text::lemma_first_where(after, q, tallies.len() as int);
            } else {
                text::lemma_first_where_none(after, q);
            }
        },
    }
}

/// Tallies count how often a path occurs in a list, and how often with
/// attributes.
proof fn lemma_tallies_count(
    tallies: Seq<Tally>,
    list: Seq<(Seq<char>, bool)>,
    path: Seq<char>,
)
    ensures
        inspect::count_of(tally_all(tallies, list), path) == inspect::count_of(tallies, path)
            + list.filter(at_path(path)).len(),
        with_attrs_of(tally_all(tallies, list), path) == with_attrs_of(tallies, path)
            + list.filter(with_attributes_at(path)).len(),
    decreases list.len(),
{
    reveal(Seq::filter);
    if list.len() > 0 {
        lemma_tallies_count(tallies, list.drop_last(), path);
        let (last, has_attrs) = list.last();
        let before = tally_all(tallies, list.drop_last());
        inspect::law_each_element_counts_once(before, last, has_attrs, path);
        lemma_with_attrs(before, last, has_attrs, path);
    }
}

/// The profiler over a list of events.
pub open spec fn survey_all(s: Survey, list: Seq<EventView>) -> Survey
    decreases list.len(),
{
    if list.len() == 0 {
        s
    } else {
        survey_all(inspect::surveyed(None, s, list[0]), list.drop_first())
    }
}

proof fn lemma_survey_concat(s: Survey, a: Seq<EventView>, b: Seq<EventView>)
    ensures
        survey_all(s, a + b) == survey_all(survey_all(s, a), b),
    decreases a.len(),
{
    if a.len() == 0 {
        assert(a + b =~= b);
    } else {
        assert((a + b).drop_first() =~= a.drop_first() + b);
        lemma_survey_concat(inspect::surveyed(None, s, a[0]), a.drop_first(), b);
    }
}

proof fn lemma_survey_one(s: Survey, event: EventView)
    ensures
        survey_all(s, seq![event]) == inspect::surveyed(None, s, event),
{
    assert(seq![event].drop_first() =~= seq![]);
    let t = inspect::surveyed(None, s, event);
    assert(survey_all(t, seq![event].drop_first()) == t);
}

/// The path of the innermost open element.
pub open spec fn top(s: Survey) -> Seq<char> {
    if s.open.len() == 0 {
        seq![]
    } else {
        s.open.last()
    }
}

/// The profiler counts the elements of the content that it reads.
#[verifier::spinoff_prover]
#[verifier::rlimit(50)]
proof fn lemma_survey(s: Survey, content: Seq<Node>)
    requires
        !s.done,
    ensures
        survey_all(s, tree::all_events(content)) == (Survey {
            tallies: tally_all(s.tallies, visits(content, top(s))),
            seen: s.seen + visits(content, top(s)).len(),
            ..s
        }),
    decreases content,
{
    if content.len() > 0 {
        let node = content[0];
        let rest = content.drop_first();
        let outer = top(s);
        let first = match node {
            Node::Element { name, attributes, content: inner } => seq![
                (path_of(outer, name), attributes.len() > 0),
            ] + visits(inner, path_of(outer, name)),
            _ => seq![],
        };
        let mid = Survey {
            tallies: tally_all(s.tallies, first),
            seen: s.seen + first.len(),
            ..s
        };
        assert(survey_all(s, tree::events(node)) == mid) by {
            match node {
                Node::Element { name, attributes, content: inner } => {
                    let start = EventView::Start { name, attributes };
                    let end = EventView::End { name };
                    let path = path_of(outer, name);
                    let one = seq![(path, attributes.len() > 0)];
                    let a = inspect::surveyed(None, s, start);
                    assert(one.drop_last() =~= seq![]);
                    assert(tally_all(s.tallies, one.drop_last()) == s.tallies);
                    assert(a.tallies == tally_all(s.tallies, one));
                    assert(top(a) == path);
                    lemma_survey_one(s, start);
                    lemma_survey(a, inner);
                    let b = survey_all(a, tree::all_events(inner));
                    lemma_survey_one(b, end);
                    lemma_survey_concat(s, seq![start], tree::all_events(inner));
                    lemma_survey_concat(s, seq![start] + tree::all_events(inner), seq![end]);
                    lemma_tally_concat(s.tallies, one, visits(inner, path));
                    assert(b.open.drop_last() =~= s.open);
                },
                Node::Text(t) => lemma_survey_one(s, EventView::Text(t)),
                Node::CData(t) => lemma_survey_one(s, EventView::CData(t)),
                Node::Comment(t) => lemma_survey_one(s, EventView::Comment(t)),
                Node::Pi(t) => lemma_survey_one(s, EventView::Pi(t)),
            }
        }
        lemma_survey(mid, rest);
        lemma_survey_concat(s, tree::events(node), tree::all_events(rest));
        lemma_tally_concat(s.tallies, first, visits(rest, outer));
    }
}

/// The profiler takes the events that are pulled.
#[verifier::spinoff_prover]
#[verifier::rlimit(50)]
proof fn lemma_scanned(st: State, s: Survey, list: Seq<EventView>)
    requires
        !s.done,
        document::pulled(st, list) is Some,
        forall|i: int| 0 <= i < list.len() ==> !((#[trigger] list[i]) is Eof),
    ensures
        inspect::scanned(None, st, s) == inspect::scanned(
            None,
            document::pulled(st, list)->0,
            survey_all(s, list),
        ),
        !survey_all(s, list).done,
    decreases list.len(),
{
    if list.len() > 0 {
        assert(!(list[0] is Eof));
        let after = document::reply(st)->Some_0.1;
        let t = inspect::surveyed(None, s, list[0]);
        let others = list.drop_first();
        assert forall|i: int| 0 <= i < others.len() implies !((#[trigger] others[i]) is Eof) by {
            assert(others[i] == list[i + 1]);
        }
        assert(!t.done);
        lemma_scanned(after, t, others);
        lemma_scanned_step(st, s);
    }
}

#[verifier::spinoff_prover]
#[verifier::rlimit(50)]
proof fn lemma_scanned_step(st: State, s: Survey)
    requires
        !s.done,
        document::reply(st) matches Some((Ok(event), after)) && !inspect::surveyed(
            None,
            s,
            event,
        ).done,
    ensures
        document::reply(st) matches Some((Ok(event), after)) && inspect::scanned(None, st, s)
            == inspect::scanned(None, after, inspect::surveyed(None, s, event)),
{
    reveal(document::reply);
}

/// What a scan of a whole document comes to.
#[verifier::spinoff_prover]
#[verifier::rlimit(50)]
proof fn lemma_whole(content: Seq<Node>, short: bool, mark: bool, lenient: bool)
    requires
        document::all_printable(content),
        document::has_element(content),
        !(content[0] is Text),
    ensures
        inspect::scanned(
            None,
            document::before(document::all_printed(content, short), mark, lenient),
            inspect::blank(),
        ) matches Some(Ok((s, _))) && s.tallies == tally_all(seq![], visits(content, seq![]))
            && s.seen == visits(content, seq![]).len() && !s.truncated,
{
    let st = document::before(document::all_printed(content, short), mark, lenient);
    let list = tree::all_events(content);
    document::lemma_all_read(content, short, mark, lenient);
    document::lemma_no_end_in(content);
    lemma_scanned(st, inspect::blank(), list);
    lemma_survey(inspect::blank(), content);
    let after = document::pulled(st, list)->0;
    let s = survey_all(inspect::blank(), list);
    assert(inspect::scanned(None, after, s) is Some) by {
        reveal(document::reply);
    }
    assert(inspect::scanned(None, after, s) matches Some(Ok((t, _))) && t == Survey {
        done: true,
        ..s
    }) by {
        reveal(document::reply);
    }
}

/// The profile of a document that is written down counts its elements: as many
/// as there are, under each path as many as lie at that path, and as many of
/// them with attributes as have some.
pub proof fn law_profiles_count_the_elements(
    content: Seq<Node>,
    short: bool,
    mark: bool,
    lenient: bool,
    path: Seq<char>,
)
    requires
        document::all_printable(content),
        document::has_element(content),
        !(content[0] is Text),
    ensures
        inspect::scanned(
            None,
            document::before(document::all_printed(content, short), mark, lenient),
            inspect::blank(),
        ) matches Some(Ok((s, _))) && {
            let list = visits(content, seq![]);
            &&& s.seen == list.len()
            &&& !s.truncated
            &&& inspect::count_of(s.tallies, path) == list.filter(at_path(path)).len()
            &&& with_attrs_of(s.tallies, path) == list.filter(with_attributes_at(path)).len()
        },
{
    lemma_whole(content, short, mark, lenient);
    lemma_tallies_count(seq![], visits(content, seq![]), path);
}

/// The paths of a list, each where it occurs first.
pub open spec fn firsts(list: Seq<(Seq<char>, bool)>) -> Seq<Seq<char>>
    decreases list.len(),
{
    if list.len() == 0 {
        seq![]
    } else if exists|i: int|
        0 <= i < list.len() - 1 && (#[trigger] list[i]).0 == list.last().0 {
        firsts(list.drop_last())
    } else {
        firsts(list.drop_last()).push(list.last().0)
    }
}

/// The paths of tallies.
pub open spec fn paths_of(tallies: Seq<Tally>) -> Seq<Seq<char>> {
    tallies.map_values(|t: Tally| t.path)
}

/// A path is among the first ones just when it is in the list.
proof fn lemma_firsts(list: Seq<(Seq<char>, bool)>, path: Seq<char>)
    ensures
        firsts(list).contains(path) <==> exists|i: int|
            0 <= i < list.len() && (#[trigger] list[i]).0 == path,
    decreases list.len(),
{
    if list.len() > 0 {
        let init = list.drop_last();
        lemma_firsts(init, path);
        let f = firsts(init);
        if f.contains(path) {
            let i = choose|i: int| 0 <= i < init.len() && (#[trigger] init[i]).0 == path;
            assert(list[i].0 == path);
            let k = choose|k: int| 0 <= k < f.len() && f[k] == path;
            assert(f.push(list.last().0)[k] == path);
        }
        if exists|i: int| 0 <= i < list.len() && (#[trigger] list[i]).0 == path {
            let i = choose|i: int| 0 <= i < list.len() && (#[trigger] list[i]).0 == path;
            if i < init.len() {
                assert(init[i].0 == path);
            } else {
                assert(f.push(list.last().0)[f.len() as int] == path);
                if exists|j: int| 0 <= j < list.len() - 1 && (#[trigger] list[j]).0 == path {
                    let j = choose|j: int|
                        0 <= j < list.len() - 1 && (#[trigger] list[j]).0 == path;
                    assert(init[j].0 == path);
                }
            }
        }
        if firsts(list).contains(path) && !f.contains(path) {
            let k = choose|k: int| 0 <= k < firsts(list).len() && firsts(list)[k] == path;
            if k < f.len() {
                assert(f[k] == path);
            }
            assert(list[list.len() - 1].0 == path);
        }
    }
}

/// Tallies stand in the order in which their paths first occur.
proof fn lemma_order(list: Seq<(Seq<char>, bool)>)
    ensures
        paths_of(tally_all(seq![], list)) == firsts(list),
    decreases list.len(),
{
    if list.len() == 0 {
        assert(paths_of(tally_all(seq![], list)) =~= seq![]);
    } else {
        let init = list.drop_last();
        let (path, has_attrs) = list.last();
        lemma_order(init);
        lemma_firsts(init, path);
        let before = tally_all(seq![], init);
        let p = inspect::of_path(path);
        text::lemma_first_where_found(before, p);
        match text::first_where(before, p) {
            Some(k) => {
                assert(paths_of(before)[k] == path);
                assert(firsts(init).contains(path));
                let i = choose|i: int| 0 <= i < init.len() && (#[trigger] init[i]).0 == path;
                assert(list[i].0 == path);
                assert(paths_of(tally_all(seq![], list)) =~= paths_of(before));
            },
            None => {
                assert(!firsts(init).contains(path)) by {
                    if firsts(init).contains(path) {
                        let k = choose|k: int|
                            0 <= k < paths_of(before).len() && paths_of(before)[k] == path;
                        assert(p(before[k]));
                    }
                }
                if exists|i: int| 0 <= i < list.len() - 1 && (#[trigger] list[i]).0 == path {
                    let i = choose|i: int|
                        0 <= i < list.len() - 1 && (#[trigger] list[i]).0 == path;
                    assert(init[i].0 == path);
                }
                assert(paths_of(tally_all(seq![], list)) =~= paths_of(before).push(path));
            },
        }
    }
}

/// The elements that begin in a list of events.
spec fn begun(open: Seq<Seq<char>>, list: Seq<EventView>) -> Seq<(Seq<char>, bool)>
    decreases list.len(),
{
    if list.len() == 0 {
        seq![]
    } else {
        let rest = list.drop_first();
        match list[0] {
            EventView::Start { name, attributes } => {
                let path = path_of(
                    if open.len() == 0 {
                        seq![]
                    } else {
                        open.last()
                    },
                    name,
                );
                seq![(path, attributes.len() > 0)] + begun(open.push(path), rest)
            },
            EventView::End { .. } => begun(open.drop_last(), rest),
            _ => begun(open, rest),
        }
    }
}

/// The elements of content, and then of what follows.
proof fn lemma_begun(open: Seq<Seq<char>>, content: Seq<Node>, more: Seq<EventView>)
    ensures
        ({
            let outer = if open.len() == 0 {
                seq![]
            } else {
                open.last()
            };
            begun(open, tree::all_events(content) + more) == visits(content, outer) + begun(
                open,
                more,
            )
        }),
    decreases content,
{
    let outer = if open.len() == 0 {
        seq![]
    } else {
        open.last()
    };
    if content.len() == 0 {
        assert(tree::all_events(content) + more =~= more);
        assert(visits(content, outer) + begun(open, more) =~= begun(open, more));
    } else {
        let node = content[0];
        let rest = content.drop_first();
        let tail = tree::all_events(rest) + more;
        let all = tree::all_events(content) + more;
        assert(all =~= tree::events(node) + tail);
        lemma_begun(open, rest, more);
        match node {
            Node::Element { name, attributes, content: inner } => {
                let start = EventView::Start { name, attributes };
                let end = EventView::End { name };
                let path = path_of(outer, name);
                let behind = seq![end] + tail;
                assert(all =~= seq![start] + (tree::all_events(inner) + behind));
                assert(all.drop_first() =~= tree::all_events(inner) + behind);
                lemma_begun(open.push(path), inner, behind);
                assert(behind.drop_first() =~= tail);
                assert(open.push(path).drop_last() =~= open);
                assert(begun(open.push(path), behind) == begun(open, tail));
                assert(begun(open, all) =~= visits(content, outer) + begun(open, more));
            },
            _ => {
                assert(tree::events(node).len() == 1);
                assert(all.drop_first() =~= tail);
                assert(begun(open, all) == begun(open, tail));
                assert(visits(content, outer) =~= visits(rest, outer));
            },
        }
    }
}

/// The profiler with a limit that is not reached, and with one that is.
#[verifier::spinoff_prover]
#[verifier::rlimit(50)]
proof fn lemma_limited(n: int, st: State, s: Survey, list: Seq<EventView>)
    requires
        !s.done,
        !s.truncated,
        s.seen < n,
        document::pulled(st, list) is Some,
        forall|i: int| 0 <= i < list.len() ==> !((#[trigger] list[i]) is Eof),
    ensures
        ({
            let b = begun(s.open, list);
            let r = inspect::scanned(Some(n), st, s);
            if s.seen + b.len() < n {
                exists|t: Survey|
                    {
                        &&& !t.done && !t.truncated && t.seen == s.seen + b.len()
                        &&& t.tallies == tally_all(s.tallies, b)
                        &&& r == #[trigger] inspect::scanned(
                            Some(n),
                            document::pulled(st, list)->0,
                            t,
                        )
                    }
            } else {
                r matches Some(Ok((t, _))) && t.seen == n && t.truncated && t.tallies == tally_all(
                    s.tallies,
                    b.take(n - s.seen),
                )
            }
        }),
    decreases list.len(),
{
    let b = begun(s.open, list);
    if list.len() == 0 {
        assert(tally_all(s.tallies, b) == s.tallies);
    } else {
        assert(!(list[0] is Eof));
        let event = list[0];
        let after = document::reply(st)->Some_0.1;
        let t = inspect::surveyed(Some(n), s, event);
        let others = list.drop_first();
        assert forall|i: int| 0 <= i < others.len() implies !((#[trigger] others[i]) is Eof) by {
            assert(others[i] == list[i + 1]);
        }
        lemma_limited_step(n, st, s);
        if let EventView::Start { name, attributes } = event {
            let path = path_of(top(s), name);
            let one = seq![(path, attributes.len() > 0)];
            let later = begun(s.open.push(path), others);
            assert(b == one + later);
            assert(one.drop_last() =~= seq![]);
            assert(tally_all(s.tallies, one.drop_last()) == s.tallies);
            assert(t.tallies == tally_all(s.tallies, one));
            if t.done {
                assert(b.take(1) =~= one);
            } else {
                lemma_limited(n, after, t, others);
                lemma_tally_concat(s.tallies, one, later);
                if s.seen + b.len() >= n {
                    let k = n - s.seen;
                    lemma_tally_concat(s.tallies, one, later.take(k - 1));
                    assert(b.take(k) =~= one + later.take(k - 1));
                }
            }
        } else {
            assert(!t.done);
            lemma_limited(n, after, t, others);
        }
    }
}

#[verifier::spinoff_prover]
#[verifier::rlimit(50)]
proof fn lemma_limited_step(n: int, st: State, s: Survey)
    requires
        !s.done,
        document::reply(st) matches Some((Ok(_), _)),
    ensures
        document::reply(st) matches Some((Ok(event), after)) && ({
            let t = inspect::surveyed(Some(n), s, event);
            inspect::scanned(Some(n), st, s) == if t.done {
                Some(Ok::<(Survey, int), markup::Failure>((t, after.offset)))
            } else {
                inspect::scanned(Some(n), after, t)
            }
        }),
{
    reveal(document::reply);
}

/// A profile lists the paths in the order in which they first occur. One with
/// a limit counts the elements up to the limit, and no others; it is truncated
/// just when there are as many.
#[verifier::spinoff_prover]
#[verifier::rlimit(50)]
pub proof fn law_limited_profiles_count_the_first_elements(
    content: Seq<Node>,
    n: int,
    short: bool,
    mark: bool,
    lenient: bool,
    path: Seq<char>,
)
    requires
        document::all_printable(content),
        document::has_element(content),
        !(content[0] is Text),
        n >= 1,
    ensures
        inspect::scanned(
            Some(n),
            document::before(document::all_printed(content, short), mark, lenient),
            inspect::blank(),
        ) matches Some(Ok((s, _))) && {
            let all = visits(content, seq![]);
            let list = if n < all.len() {
                all.take(n)
            } else {
                all
            };
            &&& s.seen == list.len()
            &&& s.truncated == (n <= all.len())
            &&& paths_of(s.tallies) == firsts(list)
            &&& inspect::count_of(s.tallies, path) == list.filter(at_path(path)).len()
            &&& with_attrs_of(s.tallies, path) == list.filter(with_attributes_at(path)).len()
        },
{
    let st = document::before(document::all_printed(content, short), mark, lenient);
    let events = tree::all_events(content);
    let all = visits(content, seq![]);
    let s = inspect::blank();
    document::lemma_all_read(content, short, mark, lenient);
    document::lemma_no_end_in(content);
    assert(events + Seq::<EventView>::empty() =~= events);
    lemma_begun(s.open, content, seq![]);
    assert(begun(s.open, seq![]) =~= seq![]);
    assert(all + Seq::<(Seq<char>, bool)>::empty() =~= all);
    assert(begun(s.open, events) == all);
    lemma_limited(n, st, s, events);
    let list = if n < all.len() {
        all.take(n)
    } else {
        all
    };
    lemma_tallies_count(seq![], list, path);
    lemma_order(list);
    if all.len() < n {
        let after = document::pulled(st, events)->0;
        let t = choose|t: Survey|
            {
                &&& !t.done && !t.truncated && t.seen == s.seen + all.len()
                &&& t.tallies == tally_all(s.tallies, all)
                &&& inspect::scanned(Some(n), st, s) == #[trigger] inspect::scanned(
                    Some(n),
                    after,
                    t,
                )
            };
        lemma_limited_step(n, after, t);
    } else {
        assert(all.take(n) =~= list);
    }
}

/// A profile without a limit lists the paths in the order in which they first
/// occur.
pub proof fn law_profiles_keep_the_order(
    content: Seq<Node>,
    short: bool,
    mark: bool,
    lenient: bool,
)
    requires
        document::all_printable(content),
        document::has_element(content),
        !(content[0] is Text),
    ensures
        inspect::scanned(
            None,
            document::before(document::all_printed(content, short), mark, lenient),
            inspect::blank(),
        ) matches Some(Ok((s, _))) && paths_of(s.tallies) == firsts(visits(content, seq![])),
{
    lemma_whole(content, short, mark, lenient);
    lemma_order(visits(content, seq![]));
}

} // verus!
