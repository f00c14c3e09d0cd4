//! What a document is, and what is carved out of it.
//!
//! A [`Node`] is a piece of a document as its author thinks of it. [`events`]
//! lists what a parser reports of it, and [`record_value`] says which JSON
//! value stands for an element: a recursion over the tree, without a driver,
//! a builder or a path. The laws say that the driver and the builder arrive at
//! just these values.

use vstd::prelude::*;

use crate::carve;
use crate::carve::{Phase, Plan, Progress};
use crate::json::Json;
use crate::markup::EventView;
use crate::record;
use crate::record::{Draft, Open, Rules};
use crate::selector;
use crate::text;

verus! {

/// A piece of a document.
#[verifier::ext_equal]
pub enum Node {
    Element { name: Seq<char>, attributes: Seq<(Seq<char>, Seq<char>)>, content: Seq<Node> },
    Text(Seq<char>),
    CData(Seq<char>),
    Comment(Seq<char>),
    Pi(Seq<char>),
}

/// What a parser reports of a piece.
pub open spec fn events(node: Node) -> Seq<EventView>
    decreases node,
{
    match node {
        Node::Element { name, attributes, content } => seq![EventView::Start { name, attributes }]
            + all_events(content) + seq![EventView::End { name }],
        Node::Text(s) => seq![EventView::Text(s)],
        Node::CData(s) => seq![EventView::CData(s)],
        Node::Comment(s) => seq![EventView::Comment(s)],
        Node::Pi(s) => seq![EventView::Pi(s)],
    }
}

/// What a parser reports of pieces that follow each other.
pub open spec fn all_events(content: Seq<Node>) -> Seq<EventView>
    decreases content,
{
    if content.len() == 0 {
        seq![]
    } else {
        events(content[0]) + all_events(content.drop_first())
    }
}

/// The last colon of a name stands at `i`.
pub open spec fn is_last_colon(name: Seq<char>, i: int) -> bool {
    &&& 0 <= i < name.len()
    &&& name[i] == ':'
    &&& forall|k: int| i < k < name.len() ==> #[trigger] name[k] != ':'
}

/// The name under which an element or an attribute appears: with namespaces
/// stripped, what stands behind the last colon, if anything does.
pub open spec fn shown_name(name: Seq<char>, strip: bool) -> Seq<char> {
    if strip && name.contains(':') && name.last() != ':' {
        name.skip((choose|i: int| is_last_colon(name, i)) + 1)
    } else {
        name
    }
}

/// True of the attributes that are kept: all of them, but for declarations of
/// namespaces where those are stripped.
pub open spec fn kept_attribute(strip: bool) -> spec_fn((Seq<char>, Seq<char>)) -> bool {
    |a: (Seq<char>, Seq<char>)|
        !(strip && (a.0 == "xmlns"@ || (a.0.len() >= 6 && a.0.take(6) == "xmlns:"@)))
}

/// The attributes of an element under the names and as the values that appear.
pub open spec fn attribute_members(attributes: Seq<(Seq<char>, Seq<char>)>, rules: Rules) -> Seq<
    (Seq<char>, Json),
> {
    attributes.filter(kept_attribute(rules.strip_namespaces)).map_values(
        |a: (Seq<char>, Seq<char>)|
            (
                rules.attr_prefix + shown_name(a.0, rules.strip_namespaces),
                scalar_value(a.1, rules),
            ),
    )
}

/// A text as it appears.
pub open spec fn scalar_value(s: Seq<char>, rules: Rules) -> Json {
    if rules.infer_types {
        record::inferred(s)
    } else {
        Json::Str(s)
    }
}

/// The texts in the content of an element, each with whether it is CDATA.
pub open spec fn texts(content: Seq<Node>) -> Seq<(Seq<char>, bool)>
    decreases content.len(),
{
    if content.len() == 0 {
        seq![]
    } else {
        (match content[0] {
            Node::Text(s) => seq![(s, false)],
            Node::CData(s) => seq![(s, true)],
            _ => seq![],
        }) + texts(content.drop_first())
    }
}

/// True of the texts that are more than indentation.
pub open spec fn meant() -> spec_fn((Seq<char>, bool)) -> bool {
    |t: (Seq<char>, bool)| t.1 || !text::all_white(t.0)
}

/// The texts one after the other.
pub open spec fn run_together(parts: Seq<(Seq<char>, bool)>) -> Seq<char> {
    parts.map_values(|t: (Seq<char>, bool)| t.0).flatten()
}

/// The value of an element.
pub open spec fn value(node: Node, rules: Rules) -> Json
    decreases node, 1int,
{
    match node {
        Node::Element { name, attributes, content } => {
            let attrs = attribute_members(attributes, rules);
            let children = members(content, rules);
            let parts = texts(content);
            if attrs.len() == 0 && children.len() == 0 {
                if run_together(parts).len() == 0 && (forall|i: int|
                    0 <= i < parts.len() ==> !(#[trigger] parts[i]).1) {
                    Json::Null
                } else {
                    scalar_value(run_together(parts), rules)
                }
            } else {
                let extra = run_together(parts.filter(meant()));
                Json::Object(
                    object_members(attrs, children) + (if extra.len() == 0 {
                        seq![]
                    } else {
                        seq![(rules.text_key, scalar_value(extra, rules))]
                    }),
                )
            }
        },
        _ => Json::Null,
    }
}

/// The children in the content of an element, each under its name.
pub open spec fn members(content: Seq<Node>, rules: Rules) -> Seq<(Seq<char>, Json)>
    decreases content, 0int,
{
    if content.len() == 0 {
        seq![]
    } else {
        (match content[0] {
            Node::Element { name, .. } => seq![
                (shown_name(name, rules.strip_namespaces), value(content[0], rules)),
            ],
            _ => seq![],
        }) + members(content.drop_first(), rules)
    }
}

/// True of the members under `key`.
pub open spec fn under(key: Seq<char>) -> spec_fn((Seq<char>, Json)) -> bool {
    |m: (Seq<char>, Json)| m.0 == key
}

/// The values of the members under `key`, in order.
pub open spec fn values_under(members: Seq<(Seq<char>, Json)>, key: Seq<char>) -> Seq<Json> {
    members.filter(under(key)).map_values(|m: (Seq<char>, Json)| m.1)
}

/// True of the keys that no attribute has.
pub open spec fn free_of(attrs: Seq<(Seq<char>, Json)>) -> spec_fn(Seq<char>) -> bool {
    |key: Seq<char>| forall|i: int| 0 <= i < attrs.len() ==> (#[trigger] attrs[i]).0 != key
}

/// The members of an object: first the attributes, then the children by their
/// names in order of first occurrence, repeated ones as one array. A child with
/// the key of an attribute joins the first attribute of that key.
pub open spec fn object_members(
    attrs: Seq<(Seq<char>, Json)>,
    children: Seq<(Seq<char>, Json)>,
) -> Seq<(Seq<char>, Json)> {
    Seq::new(
        attrs.len(),
        |i: int|
            {
                let (key, own) = attrs[i];
                let others = values_under(children, key);
                let first = forall|k: int| 0 <= k < i ==> (#[trigger] attrs[k]).0 != key;
                if others.len() == 0 || !first {
                    (key, own)
                } else {
                    (key, Json::Array(seq![own] + others))
                }
            },
    ) + record::first_names(children).filter(free_of(attrs)).map_values(
        |key: Seq<char>|
            {
                let all = values_under(children, key);
                if all.len() == 1 {
                    (key, all[0])
                } else {
                    (key, Json::Array(all))
                }
            },
    )
}

/// The record that an element becomes.
pub open spec fn record_value(node: Node, rules: Rules) -> Json {
    match node {
        Node::Element { name, .. } => if rules.wrap {
            Json::Object(
                seq![(shown_name(name, rules.strip_namespaces), value(node, rules))],
            )
        } else {
            value(node, rules)
        },
        _ => Json::Null,
    }
}

/// The driver over a list of events, and the records that it gives.
pub open spec fn drive(plan: Plan, p: Progress, list: Seq<EventView>) -> (Progress, Seq<Json>)
    decreases list.len(),
{
    if list.len() == 0 {
        (p, seq![])
    } else {
        let (q, record) = carve::step(plan, p, list[0]);
        let (last, rest) = drive(plan, q, list.drop_first());
        (
            last,
            (match record {
                Some(value) => seq![value],
                None => seq![],
            }) + rest,
        )
    }
}

/// Two lists one after the other.
proof fn lemma_drive_concat(plan: Plan, p: Progress, a: Seq<EventView>, b: Seq<EventView>)
    ensures
        ({
            let (q, first) = drive(plan, p, a);
            let (last, second) = drive(plan, q, b);
            drive(plan, p, a + b) == (last, first + second)
        }),
    decreases a.len(),
{
    if a.len() == 0 {
        assert(a + b =~= b);
        let second = drive(plan, p, b).1;
        assert(Seq::<Json>::empty() + second =~= second);
    } else {
        let (q, record) = carve::step(plan, p, a[0]);
        lemma_drive_concat(plan, q, a.drop_first(), b);
        assert((a + b).drop_first() =~= a.drop_first() + b);
        let head = match record {
            Some(value) => seq![value],
            None => seq![],
        };
        let (r, first) = drive(plan, q, a.drop_first());
        let second = drive(plan, r, b).1;
        assert(head + (first + second) =~= head + first + second);
    }
}

/// One event.
proof fn lemma_drive_one(plan: Plan, p: Progress, event: EventView)
    ensures
        ({
            let (q, record) = carve::step(plan, p, event);
            drive(plan, p, seq![event]) == (
                q,
                match record {
                    Some(value) => seq![value],
                    None => Seq::<Json>::empty(),
                },
            )
        }),
{
    let (q, record) = carve::step(plan, p, event);
    assert(seq![event].drop_first() =~= seq![]);
    assert(drive(plan, q, seq![event].drop_first()) == (q, Seq::<Json>::empty()));
    if let Some(value) = record {
        assert(seq![value] + Seq::<Json>::empty() =~= seq![value]);
    } else {
        assert(Seq::<Json>::empty() + Seq::<Json>::empty() =~= Seq::<Json>::empty());
    }
}

/// Names are mapped as they are shown.
pub proof fn law_names_are_shown_without_their_prefix(name: Seq<char>, strip: bool)
    ensures
        record::mapped_name(name, strip) == shown_name(name, strip),
{
    let colon = text::equal_to(':');
    text::lemma_last_where_found(name, colon);
    match text::last_where(name, colon) {
        Some(i) => {
            assert(colon(name[i]));
            assert(name.contains(':'));
            assert forall|k: int| i < k < name.len() implies #[trigger] name[k] != ':' by {
                assert(!colon(name[k]));
            }
            assert(is_last_colon(name, i));
            let k = choose|k: int| is_last_colon(name, k);
            assert(is_last_colon(name, k));
            assert(k == i);
            if i + 1 == name.len() {
                assert(name.last() == ':');
            }
        },
        None => {
            if name.contains(':') {
                let k = name.index_of(':');
                assert(name[k] == ':');
                assert(colon(name[k]));
            }
        },
    }
}

/// The attributes that are kept are those that are mapped.
proof fn lemma_attributes(attributes: Seq<(Seq<char>, Seq<char>)>, rules: Rules)
    ensures
        record::attribute_entries(
            record::mapped_attributes(attributes, rules.strip_namespaces),
            rules,
        ) == attribute_members(attributes, rules),
        record::mapped_attributes(attributes, rules.strip_namespaces).len() == attribute_members(
            attributes,
            rules,
        ).len(),
    decreases attributes.len(),
{
    reveal(Seq::filter);
    let strip = rules.strip_namespaces;
    let wanted = attribute_members(attributes, rules);
    let mapped = record::mapped_attributes(attributes, strip);
    if attributes.len() == 0 {
        assert(record::attribute_entries(mapped, rules) =~= wanted);
    } else {
        lemma_attributes(attributes.drop_last(), rules);
        let (key, value) = attributes.last();
        law_names_are_shown_without_their_prefix(key, strip);
        lemma_namespace_key(key);
        let init = attributes.drop_last();
        let before = attribute_members(init, rules);
        let keep = kept_attribute(strip);
        if keep(attributes.last()) {
            let next = (rules.attr_prefix + shown_name(key, strip), scalar_value(value, rules));
            assert(attributes.filter(keep) == init.filter(keep).push(attributes.last()));
            assert(wanted =~= before.push(next));
            assert(mapped == record::mapped_attributes(init, strip).push(
                (record::mapped_name(key, strip), value),
            ));
            assert(record::attribute_entries(mapped, rules) =~= before.push(next));
        } else {
            assert(attributes.filter(keep) == init.filter(keep));
            assert(mapped == record::mapped_attributes(init, strip));
        }
    }
}

/// Which keys declare a namespace.
proof fn lemma_namespace_key(key: Seq<char>)
    ensures
        record::is_namespace_declaration(key) <==> key == "xmlns"@ || (key.len() >= 6 && key.take(6)
            == "xmlns:"@),
{
    reveal_strlit("xmlns:");
    let prefix = "xmlns:"@;
    assert(prefix.len() == 6);
    if prefix.is_prefix_of(key) {
        assert(key.take(6) =~= prefix);
    }
    if key.len() >= 6 && key.take(6) == prefix {
        assert forall|i: int| 0 <= i < 6 implies prefix[i] == key[i] by {
            assert(key.take(6)[i] == key[i]);
        }
    }
}

/// The texts run together are those that the builder joins, and those that it
/// keeps.
proof fn lemma_texts(parts: Seq<(Seq<char>, bool)>)
    ensures
        record::joined(parts) == run_together(parts),
        record::kept(parts) == run_together(parts.filter(meant())),
    decreases parts.len(),
{
    reveal(Seq::filter);
    if parts.len() == 0 {
        assert(parts.map_values(|t: (Seq<char>, bool)| t.0) =~= seq![]);
        assert(parts.filter(meant()).map_values(|t: (Seq<char>, bool)| t.0) =~= seq![]);
    } else {
        let init = parts.drop_last();
        lemma_texts(init);
        lemma_run_together_push(init, parts.last());
        assert(init.push(parts.last()) =~= parts);
        if meant()(parts.last()) {
            lemma_run_together_push(init.filter(meant()), parts.last());
        }
        assert(record::kept(init) + Seq::<char>::empty() =~= record::kept(init));
    }
}

proof fn lemma_run_together_push(parts: Seq<(Seq<char>, bool)>, last: (Seq<char>, bool))
    ensures
        run_together(parts.push(last)) == run_together(parts) + last.0,
{
    let names = parts.map_values(|t: (Seq<char>, bool)| t.0);
    assert(parts.push(last).map_values(|t: (Seq<char>, bool)| t.0) =~= names.push(last.0));
    lemma_flatten_push(names, last.0);
}

proof fn lemma_flatten_push(names: Seq<Seq<char>>, last: Seq<char>)
    ensures
        names.push(last).flatten() == names.flatten() + last,
    decreases names.len(),
{
    let all = names.push(last);
    if names.len() == 0 {
        assert(all.drop_first() =~= seq![]);
        assert(all.first() == last);
        assert(all.drop_first().flatten() =~= seq![]);
        assert(all.flatten() =~= last);
        assert(names.flatten() + last =~= last);
    } else {
        lemma_flatten_push(names.drop_first(), last);
        assert(all.drop_first() =~= names.drop_first().push(last));
        assert(all.flatten() =~= names.flatten() + last);
    }
}

/// The values of the children under a name, told in two ways.
proof fn lemma_values(children: Seq<(Seq<char>, Json)>, key: Seq<char>)
    ensures
        record::values_of(children, key) == values_under(children, key),
    decreases children.len(),
{
    reveal(Seq::filter);
    if children.len() > 0 {
        lemma_values(children.drop_last(), key);
    }
    assert(record::values_of(children, key) =~= values_under(children, key));
}

/// One more child.
proof fn lemma_values_push(
    children: Seq<(Seq<char>, Json)>,
    child: (Seq<char>, Json),
    key: Seq<char>,
)
    ensures
        values_under(children.push(child), key) == (if child.0 == key {
            values_under(children, key).push(child.1)
        } else {
            values_under(children, key)
        }),
{
    reveal(Seq::filter);
    assert(children.push(child).drop_last() =~= children);
    assert(values_under(children.push(child), key) =~= (if child.0 == key {
        values_under(children, key).push(child.1)
    } else {
        values_under(children, key)
    }));
}

/// A name occurs among the first names exactly when it has values.
proof fn lemma_first_names(children: Seq<(Seq<char>, Json)>, key: Seq<char>)
    ensures
        record::first_names(children).contains(key) <==> values_under(children, key).len() > 0,
        record::first_names(children).no_duplicates(),
    decreases children.len(),
{
    reveal(Seq::filter);
    if children.len() > 0 {
        let init = children.drop_last();
        let before = record::first_names(init);
        let (last, value) = children.last();
        lemma_first_names(init, key);
        lemma_first_names(init, last);
        lemma_values_push(init, children.last(), key);
        assert(init.push(children.last()) =~= children);
        let names = record::first_names(children);
        if before.contains(key) {
            let i = before.index_of(key);
            assert(before[i] == key);
            assert(names[i] == key);
        }
        if last == key && !before.contains(last) {
            assert(names.last() == key);
        }
    }
}

/// The children merged into the attributes one by one are the members that
/// are told at once.
proof fn lemma_object_members(attrs: Seq<(Seq<char>, Json)>, children: Seq<(Seq<char>, Json)>)
    requires
        forall|i: int| 0 <= i < attrs.len() ==> !((#[trigger] attrs[i]).1 is Array),
        forall|i: int| 0 <= i < children.len() ==> !((#[trigger] children[i]).1 is Array),
    ensures
        record::merged_all(attrs, children) == object_members(attrs, children),
    decreases children.len(),
{
    reveal(Seq::filter);
    if children.len() == 0 {
        assert(values_under(children, seq![]) =~= seq![]);
        assert forall|i: int| 0 <= i < attrs.len() implies values_under(
            children,
            (#[trigger] attrs[i]).0,
        ).len() == 0 by {}
        assert(object_members(attrs, children) =~= attrs);
    } else {
        let init = children.drop_last();
        let (key, value) = children.last();
        assert(children[children.len() - 1] == children.last());
        assert forall|i: int| 0 <= i < init.len() implies !((#[trigger] init[i]).1 is Array) by {
            assert(init[i] == children[i]);
        }
        lemma_object_members(attrs, init);
        let before = object_members(attrs, init);
        assert(init.push(children.last()) =~= children);
        if free_of(attrs)(key) {
            lemma_new_child(attrs, init, key, value);
        } else {
            lemma_child_of_attribute(attrs, init, key, value);
        }
    }
}

/// A child with a key of its own.
#[verifier::spinoff_prover]
proof fn lemma_new_child(
    attrs: Seq<(Seq<char>, Json)>,
    init: Seq<(Seq<char>, Json)>,
    key: Seq<char>,
    value: Json,
)
    requires
        free_of(attrs)(key),
        forall|i: int| 0 <= i < init.len() ==> !((#[trigger] init[i]).1 is Array),
    ensures
        record::merged(object_members(attrs, init), key, value) == object_members(
            attrs,
            init.push((key, value)),
        ),
{
    reveal(Seq::filter);
    let all = init.push((key, value));
    let free = free_of(attrs);
    let before = object_members(attrs, init);
    let after = object_members(attrs, all);
    let old_names = record::first_names(init);
    let old_free = old_names.filter(free);
    let new_free = record::first_names(all).filter(free);
    let n = attrs.len() as int;
    assert(all.drop_last() =~= init);
    assert forall|k: Seq<char>| true implies #[trigger] values_under(all, k) == (if k == key {
        values_under(init, k).push(value)
    } else {
        values_under(init, k)
    }) by {
        lemma_values_push(init, (key, value), k);
    }
    lemma_first_names(init, key);
    assert forall|i: int| 0 <= i < n implies before[i] == after[i] && !record::keyed(key)(
        before[i],
    ) by {
        assert(attrs[i].0 != key);
    }
    if old_names.contains(key) {
        assert(record::first_names(all) == old_names);
        let at = old_names.index_of(key);
        assert(old_names[at] == key);
        old_names.lemma_filter_contains(free, at);
        lemma_filter_no_duplicates(old_names, free);
        let j = old_free.index_of(key);
        assert(old_free[j] == key);
        assert(before[n + j].0 == key);
        assert forall|i: int| 0 <= i < n + j implies !record::keyed(key)(#[trigger] before[i]) by {
            if i >= n {
                assert(before[i].0 == old_free[i - n]);
                assert(old_free[i - n] != old_free[j]);
            }
        }
        text::lemma_first_where(before, record::keyed(key), n + j);
        lemma_values_are_no_arrays(init, key);
        let old_values = values_under(init, key);
        assert(old_values.len() > 0);
        if old_values.len() == 1 {
            assert(values_under(all, key) =~= seq![old_values[0], value]);
        }
        assert(record::promoted(before[n + j].1, value) == after[n + j].1);
        assert forall|i: int| 0 <= i < old_free.len() && i != j implies old_free[i] != key by {
            assert(old_free[i] != old_free[j]);
        }
        assert(record::merged(before, key, value) =~= after);
    } else {
        assert(new_free =~= old_free.push(key)) by {
            assert(record::first_names(all) == old_names.push(key));
            assert(old_names.push(key).drop_last() =~= old_names);
        }
        assert forall|i: int| 0 <= i < before.len() implies !record::keyed(key)(
            #[trigger] before[i],
        ) by {
            if i >= n {
                assert(before[i].0 == old_free[i - n]);
                assert(old_free.contains(old_free[i - n]));
                old_names.lemma_filter_contains_rev(free, old_free[i - n]);
            }
        }
        text::lemma_first_where_none(before, record::keyed(key));
        assert(values_under(init, key).len() == 0);
        assert(values_under(all, key) =~= seq![value]);
        assert forall|i: int| 0 <= i < old_free.len() implies old_free[i] != key by {
            assert(old_free.contains(old_free[i]));
            old_names.lemma_filter_contains_rev(free, old_free[i]);
        }
        assert(before.push((key, value)) =~= after);
    }
}

/// What is left of a list without duplicates has none.
proof fn lemma_filter_no_duplicates(names: Seq<Seq<char>>, keep: spec_fn(Seq<char>) -> bool)
    requires
        names.no_duplicates(),
    ensures
        names.filter(keep).no_duplicates(),
    decreases names.len(),
{
    reveal(Seq::filter);
    if names.len() > 0 {
        let init = names.drop_last();
        assert(init.no_duplicates()) by {
            assert forall|i: int, j: int|
                0 <= i < init.len() && 0 <= j < init.len() && i != j implies init[i] != init[j] by {
                assert(names[i] != names[j]);
            }
        }
        lemma_filter_no_duplicates(init, keep);
        let kept = init.filter(keep);
        assert forall|i: int| 0 <= i < kept.len() implies kept[i] != names.last() by {
            assert(kept.contains(kept[i]));
            init.lemma_filter_contains_rev(keep, kept[i]);
            let k = init.index_of(kept[i]);
            assert(names[k] != names[names.len() - 1]);
        }
    }
}

/// The values under a name are no arrays where no child is one.
proof fn lemma_values_are_no_arrays(children: Seq<(Seq<char>, Json)>, key: Seq<char>)
    requires
        forall|i: int| 0 <= i < children.len() ==> !((#[trigger] children[i]).1 is Array),
    ensures
        forall|i: int|
            0 <= i < values_under(children, key).len() ==> !((#[trigger] values_under(
                children,
                key,
            )[i]) is Array),
    decreases children.len(),
{
    reveal(Seq::filter);
    if children.len() > 0 {
        let init = children.drop_last();
        assert forall|i: int| 0 <= i < init.len() implies !((#[trigger] init[i]).1 is Array) by {
            assert(init[i] == children[i]);
        }
        lemma_values_are_no_arrays(init, key);
        lemma_values_push(init, children.last(), key);
        assert(init.push(children.last()) =~= children);
        assert(children[children.len() - 1] == children.last());
    }
}

/// A child with the key of an attribute.
#[verifier::spinoff_prover]
proof fn lemma_child_of_attribute(
    attrs: Seq<(Seq<char>, Json)>,
    init: Seq<(Seq<char>, Json)>,
    key: Seq<char>,
    value: Json,
)
    requires
        !free_of(attrs)(key),
        forall|i: int| 0 <= i < attrs.len() ==> !((#[trigger] attrs[i]).1 is Array),
    ensures
        record::merged(object_members(attrs, init), key, value) == object_members(
            attrs,
            init.push((key, value)),
        ),
{
    reveal(Seq::filter);
    let all = init.push((key, value));
    let free = free_of(attrs);
    let before = object_members(attrs, init);
    let after = object_members(attrs, all);
    let old_names = record::first_names(init);
    let old_free = old_names.filter(free);
    let n = attrs.len() as int;
    assert(all.drop_last() =~= init);
    assert forall|k: Seq<char>| true implies #[trigger] values_under(all, k) == (if k == key {
        values_under(init, k).push(value)
    } else {
        values_under(init, k)
    }) by {
        lemma_values_push(init, (key, value), k);
    }
    let k = record::keyed(key);
    text::lemma_first_where_found(attrs, k);
    if text::first_where(attrs, k) is None {
        assert forall|i: int| 0 <= i < attrs.len() implies (#[trigger] attrs[i]).0 != key by {
            assert(!k(attrs[i]));
        }
    }
    let at = text::first_where(attrs, k)->0;
    assert(k(attrs[at]));
    assert forall|i: int| 0 <= i < at implies (#[trigger] attrs[i]).0 != key by {
        assert(!k(attrs[i]));
    }
    assert forall|i: int| 0 <= i < at implies !k(#[trigger] before[i]) by {
        assert(before[i].0 == attrs[i].0);
    }
    assert(before[at].0 == key);
    text::lemma_first_where(before, k, at);
    let old_values = values_under(init, key);
    let own = attrs[at].1;
    assert(after[at] == (key, Json::Array(seq![own] + old_values.push(value))));
    if old_values.len() == 0 {
        assert(before[at].1 == own);
        assert(seq![own] + old_values.push(value) =~= seq![own, value]);
    } else {
        assert(before[at].1 == Json::Array(seq![own] + old_values));
        assert((seq![own] + old_values).push(value) =~= seq![own] + old_values.push(value));
    }
    assert(record::promoted(before[at].1, value) == after[at].1);
    assert(record::first_names(all).filter(free) =~= old_free) by {
        if !old_names.contains(key) {
            assert(record::first_names(all) == old_names.push(key));
            assert(old_names.push(key).drop_last() =~= old_names);
        }
    }
    assert forall|i: int| 0 <= i < old_free.len() implies old_free[i] != key by {
        old_names.lemma_filter_pred(free, i);
    }
    assert forall|i: int| 0 <= i < before.len() && i != at implies before[i] == after[i] by {
        if i < n {
            if attrs[i].0 == key {
                assert(at < i);
                assert(attrs[at].0 == key);
            }
        }
    }
    assert(record::merged(before, key, value) =~= after);
}

/// The value of an element is what the builder makes of it.
proof fn lemma_finished(node: Node, rules: Rules)
    requires
        node is Element,
    ensures
        ({
            let content = node->content;
            let strip = rules.strip_namespaces;
            record::finished(
                Open {
                    name: record::mapped_name(node->name, strip),
                    attrs: record::mapped_attributes(node->attributes, strip),
                    children: members(content, rules),
                    chunks: texts(content),
                },
                rules,
            ) == value(node, rules)
        }),
        !(value(node, rules) is Array),
{
    let content = node->content;
    let children = members(content, rules);
    let parts = texts(content);
    let attrs = attribute_members(node->attributes, rules);
    lemma_attributes(node->attributes, rules);
    lemma_texts(parts);
    lemma_members(content, rules);
    assert forall|i: int| 0 <= i < attrs.len() implies !((#[trigger] attrs[i]).1 is Array) by {
        let a = node->attributes.filter(kept_attribute(rules.strip_namespaces))[i];
        assert(attrs[i].1 == scalar_value(a.1, rules));
    }
    lemma_object_members(attrs, children);
    let entries = object_members(attrs, children);
    assert(entries + Seq::<(Seq<char>, Json)>::empty() =~= entries);
    let extra = run_together(parts.filter(meant()));
    let last = (rules.text_key, scalar_value(extra, rules));
    assert(entries + seq![last] =~= entries.push(last));
}

/// No child is an array.
proof fn lemma_members(content: Seq<Node>, rules: Rules)
    ensures
        forall|i: int|
            0 <= i < members(content, rules).len() ==> !((#[trigger] members(content, rules)[i]).1 is Array),
    decreases content.len(),
{
    if content.len() > 0 {
        let rest = members(content.drop_first(), rules);
        lemma_members(content.drop_first(), rules);
        assert(!(value(content[0], rules) is Array));
        assert forall|i: int| 0 <= i < members(content, rules).len() implies !((
        #[trigger] members(content, rules)[i]).1 is Array) by {
            let n = members(content, rules).len() - rest.len();
            if i >= n {
                assert(members(content, rules)[i] == rest[i - n]);
            }
        }
    }
}

/// The innermost element of a draft with more children and texts.
pub open spec fn with_content(draft: Draft, content: Seq<Node>) -> Draft {
    let last = draft.open.last();
    Draft {
        open: draft.open.drop_last().push(
            Open {
                children: last.children + members(content, draft.rules),
                chunks: last.chunks + texts(content),
                ..last
            },
        ),
        rules: draft.rules,
    }
}

/// Content inside a record goes to the innermost element.
proof fn lemma_content(plan: Plan, p: Progress, content: Seq<Node>)
    requires
        p.phase matches Phase::Building(draft) && draft.open.len() > 0,
    ensures
        drive(plan, p, all_events(content)) == (
            Progress {
                phase: Phase::Building(with_content(p.phase->Building_0, content)),
                ..p
            },
            Seq::<Json>::empty(),
        ),
    decreases content, 0int,
{
    let draft = p.phase->Building_0;
    let last = draft.open.last();
    if content.len() == 0 {
        assert(last.children + members(content, draft.rules) =~= last.children);
        assert(last.chunks + texts(content) =~= last.chunks);
        assert(with_content(draft, content) =~= draft);
    } else {
        let rest = content.drop_first();
        lemma_node(plan, p, content[0]);
        let mid = with_content(draft, seq![content[0]]);
        let q = Progress { phase: Phase::Building(mid), ..p };
        lemma_content(plan, q, rest);
        lemma_drive_concat(plan, p, events(content[0]), all_events(rest));
        lemma_split_content(content, draft.rules);
        let m = mid.open.last();
        assert(m.children + members(rest, draft.rules) =~= last.children + members(
            content,
            draft.rules,
        ));
        assert(m.chunks + texts(rest) =~= last.chunks + texts(content));
        assert(mid.open.drop_last() =~= draft.open.drop_last());
        assert(with_content(mid, rest) =~= with_content(draft, content));
        assert(Seq::<Json>::empty() + Seq::<Json>::empty() =~= Seq::<Json>::empty());
    }
}

proof fn lemma_split_content(content: Seq<Node>, rules: Rules)
    requires
        content.len() > 0,
    ensures
        members(content, rules) == members(seq![content[0]], rules) + members(
            content.drop_first(),
            rules,
        ),
        texts(content) == texts(seq![content[0]]) + texts(content.drop_first()),
{
    let one = seq![content[0]];
    assert(one.drop_first() =~= seq![]);
    assert(members(one.drop_first(), rules) =~= seq![]);
    assert(texts(one.drop_first()) =~= seq![]);
    assert(members(content, rules) =~= members(one, rules) + members(content.drop_first(), rules));
    assert(texts(content) =~= texts(one) + texts(content.drop_first()));
}

/// A piece of content inside a record goes to the innermost element: an
/// element as a child of its own value, whatever it holds.
proof fn lemma_node(plan: Plan, p: Progress, node: Node)
    requires
        p.phase matches Phase::Building(draft) && draft.open.len() > 0,
    ensures
        drive(plan, p, events(node)) == (
            Progress {
                phase: Phase::Building(with_content(p.phase->Building_0, seq![node])),
                ..p
            },
            Seq::<Json>::empty(),
        ),
    decreases node, 1int,
{
    let draft = p.phase->Building_0;
    let rules = draft.rules;
    let last = draft.open.last();
    let one = seq![node];
    assert(one.drop_first() =~= seq![]);
    assert(members(one.drop_first(), rules) =~= seq![]);
    assert(texts(one.drop_first()) =~= seq![]);
    match node {
        Node::Element { name, attributes, content } => {
            let start = EventView::Start { name, attributes };
            let end = EventView::End { name };
            let strip = rules.strip_namespaces;
            let opened = record::started(draft, name, attributes);
            let q = carve::step(plan, p, start).0;
            assert(q.phase == Phase::Building(opened));
            lemma_drive_one(plan, p, start);
            lemma_content(plan, q, content);
            let full = with_content(opened, content);
            let r = Progress { phase: Phase::Building(full), ..q };
            lemma_drive_one(plan, r, end);
            lemma_drive_concat(plan, p, seq![start], all_events(content));
            lemma_drive_concat(plan, p, seq![start] + all_events(content), seq![end]);
            lemma_finished(node, rules);
            law_names_are_shown_without_their_prefix(name, strip);
            let inner = full.open.last();
            assert(opened.open.last().children + members(content, rules) =~= members(
                content,
                rules,
            ));
            assert(opened.open.last().chunks + texts(content) =~= texts(content));
            assert(full.open.drop_last() =~= draft.open);
            assert(record::finished(inner, rules) == value(node, rules));
            assert(texts(one) =~= seq![]);
            assert(members(one, rules) =~= seq![(shown_name(name, strip), value(node, rules))]);
            assert(last.chunks + texts(one) =~= last.chunks);
            assert(last.children + members(one, rules) =~= last.children.push(
                (shown_name(name, strip), value(node, rules)),
            ));
            assert(record::ended(full).0 =~= with_content(draft, one));
            assert(r.path.drop_last() =~= p.path);
            assert(Seq::<Json>::empty() + Seq::<Json>::empty() =~= Seq::<Json>::empty());
        },
        Node::Text(s) => {
            lemma_drive_one(plan, p, EventView::Text(s));
            assert(texts(one) =~= seq![(s, false)]);
            assert(last.chunks + texts(one) =~= last.chunks.push((s, false)));
            assert(last.children + members(one, rules) =~= last.children);
            assert(record::texted(draft, s, false) =~= with_content(draft, one));
        },
        Node::CData(s) => {
            lemma_drive_one(plan, p, EventView::CData(s));
            assert(texts(one) =~= seq![(s, true)]);
            assert(last.chunks + texts(one) =~= last.chunks.push((s, true)));
            assert(last.children + members(one, rules) =~= last.children);
            assert(record::texted(draft, s, true) =~= with_content(draft, one));
        },
        Node::Comment(s) => {
            lemma_drive_one(plan, p, EventView::Comment(s));
            assert(last.chunks + texts(one) =~= last.chunks);
            assert(last.children + members(one, rules) =~= last.children);
            assert(with_content(draft, one) =~= draft);
        },
        Node::Pi(s) => {
            lemma_drive_one(plan, p, EventView::Pi(s));
            assert(last.chunks + texts(one) =~= last.chunks);
            assert(last.children + members(one, rules) =~= last.children);
            assert(with_content(draft, one) =~= draft);
        },
    }
}

/// A record is the whole of its element. From a matched start tag to its end
/// tag the driver gives one record, at the end: the value of the element with
/// all that it holds, each element in it at any depth with all its attributes,
/// texts and children. Afterwards the driver stands where it stood.
pub proof fn law_a_record_is_its_whole_element(plan: Plan, p: Progress, node: Node)
    requires
        node is Element,
        p.phase is Scanning,
        !p.done,
        plan.skip <= p.matched,
        selector::any_selects(
            plan.selectors,
            p.path.push(shown_name(node->name, plan.rules.strip_namespaces)),
        ),
    ensures
        drive(plan, p, events(node)) == (
            Progress {
                matched: p.matched + 1,
                written: p.written + 1,
                done: plan.limit matches Some(n) && p.written + 1 >= n,
                ..p
            },
            seq![record_value(node, plan.rules)],
        ),
{
    let rules = plan.rules;
    let strip = rules.strip_namespaces;
    let name = node->name;
    let content = node->content;
    let start = EventView::Start { name, attributes: node->attributes };
    let end = EventView::End { name };
    law_names_are_shown_without_their_prefix(name, strip);
    let opened = record::started(Draft { open: seq![], rules }, name, node->attributes);
    let q = carve::step(plan, p, start).0;
    assert(q.phase == Phase::Building(opened));
    lemma_drive_one(plan, p, start);
    lemma_content(plan, q, content);
    let full = with_content(opened, content);
    let r = Progress { phase: Phase::Building(full), ..q };
    lemma_drive_one(plan, r, end);
    lemma_drive_concat(plan, p, seq![start], all_events(content));
    lemma_drive_concat(plan, p, seq![start] + all_events(content), seq![end]);
    lemma_finished(node, rules);
    assert(opened.open.last().children + members(content, rules) =~= members(content, rules));
    assert(opened.open.last().chunks + texts(content) =~= texts(content));
    assert(record::finished(full.open.last(), rules) == value(node, rules));
    assert(full.open.drop_last() =~= seq![]);
    assert(r.path.drop_last() =~= p.path);
    let none = Seq::<Json>::empty();
    assert(none + none =~= none);
    assert(none + seq![record_value(node, rules)] =~= seq![record_value(node, rules)]);
}

/// The records in pieces of a document below `path`: each element that is
/// selected, as a whole, and of each other element those inside it.
pub open spec fn records_in(plan: Plan, path: Seq<Seq<char>>, content: Seq<Node>) -> Seq<Json>
    decreases content,
{
    if content.len() == 0 {
        seq![]
    } else {
        (match content[0] {
            Node::Element { name, content: inner, .. } => {
                let here = path.push(shown_name(name, plan.rules.strip_namespaces));
                if selector::any_selects(plan.selectors, here) {
                    seq![record_value(content[0], plan.rules)]
                } else {
                    records_in(plan, here, inner)
                }
            },
            _ => seq![],
        }) + records_in(plan, path, content.drop_first())
    }
}

/// The records of a document are its selected elements, in document order: the
/// driver gives one for each element that a selector matches and that is not
/// inside another such, and nothing else.
pub proof fn law_records_are_the_selected_elements(plan: Plan, p: Progress, content: Seq<Node>)
    requires
        p.phase is Scanning,
        !p.done,
        plan.limit is None,
        plan.skip <= p.matched,
    ensures
        ({
            let records = records_in(plan, p.path, content);
            drive(plan, p, all_events(content)) == (
                Progress {
                    matched: p.matched + records.len(),
                    written: p.written + records.len(),
                    ..p
                },
                records,
            )
        }),
    decreases content,
{
    let none = Seq::<Json>::empty();
    assert(none + none =~= none);
    if content.len() > 0 {
        let node = content[0];
        let rest = content.drop_first();
        let first = match node {
            Node::Element { name, content: inner, .. } => {
                let here = p.path.push(shown_name(name, plan.rules.strip_namespaces));
                if selector::any_selects(plan.selectors, here) {
                    seq![record_value(node, plan.rules)]
                } else {
                    records_in(plan, here, inner)
                }
            },
            _ => none,
        };
        let q = Progress {
            matched: p.matched + first.len(),
            written: p.written + first.len(),
            ..p
        };
        assert(drive(plan, p, events(node)) == (q, first)) by {
            match node {
                Node::Element { name, attributes, content: inner } => {
                    let here = p.path.push(shown_name(name, plan.rules.strip_namespaces));
                    if selector::any_selects(plan.selectors, here) {
                        law_a_record_is_its_whole_element(plan, p, node);
                    } else {
                        let start = EventView::Start { name, attributes };
                        let end = EventView::End { name };
                        law_names_are_shown_without_their_prefix(
                            name,
                            plan.rules.strip_namespaces,
                        );
                        let a = carve::step(plan, p, start).0;
                        assert(a == Progress { path: here, ..p });
                        lemma_drive_one(plan, p, start);
                        law_records_are_the_selected_elements(plan, a, inner);
                        let b = drive(plan, a, all_events(inner)).0;
                        lemma_drive_one(plan, b, end);
                        lemma_drive_concat(plan, p, seq![start], all_events(inner));
                        lemma_drive_concat(plan, p, seq![start] + all_events(inner), seq![end]);
                        assert(b.path.drop_last() =~= p.path);
                        assert(none + first =~= first);
                        assert(first + none =~= first);
                    }
                },
                Node::Text(s) => lemma_drive_one(plan, p, EventView::Text(s)),
                Node::CData(s) => lemma_drive_one(plan, p, EventView::CData(s)),
                Node::Comment(s) => lemma_drive_one(plan, p, EventView::Comment(s)),
                Node::Pi(s) => lemma_drive_one(plan, p, EventView::Pi(s)),
            }
        }
        law_records_are_the_selected_elements(plan, q, rest);
        lemma_drive_concat(plan, p, events(node), all_events(rest));
    }
}

} // verus!
