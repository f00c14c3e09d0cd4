//! Documents that are refused, and the line that is named.

use vstd::prelude::*;

use crate::document;
use crate::markup;
use crate::markup::{EventView, Reply, State};
use crate::stream;
use crate::text;
use crate::tree;
use crate::tree::Node;
use crate::xml;

verus! {

/// True of a line feed.
pub open spec fn is_line_feed() -> spec_fn(u8) -> bool {
    |b: u8| b == 0x0a
}

/// The line behind some bytes: one more than the line feeds among them.
pub open spec fn line_behind(bytes: Seq<u8>) -> int {
    1int + bytes.filter(is_line_feed()).len()
}

proof fn lemma_newlines(bytes: Seq<u8>)
    ensures
        markup::newlines(bytes) == bytes.filter(is_line_feed()).len(),
    decreases bytes.len(),
{
    reveal(Seq::filter);
    if bytes.len() > 0 {
        lemma_newlines(bytes.drop_last());
    }
}

/// A failure names the line where the reading stopped.
#[verifier::spinoff_prover]
#[verifier::rlimit(50)]
proof fn lemma_failure_line(st: State)
    ensures
        markup::next(st) matches Some((Err(f), after)) ==> f.line == after.line,
{
}

/// A failure names the line at which the reading stopped: as many line feeds
/// lie before that line as were consumed.
#[verifier::spinoff_prover]
#[verifier::rlimit(50)]
pub proof fn law_failures_name_their_line(st: State, read: Seq<u8>)
    requires
        st.line == line_behind(read),
    ensures
        markup::next(st) matches Some((Err(f), after)) ==> {
            let n = after.offset - st.offset;
            &&& 0 <= n <= st.input.len()
            &&& after.input == st.input.skip(n)
            &&& f.line == line_behind(read + st.input.take(n))
        },
{
    lemma_failure_line(st);
    stream::law_reply_effects(st);
    if let Some((_, after)) = markup::next(st) {
        let n = after.offset - st.offset;
        lemma_newlines(read);
        lemma_newlines(read + st.input.take(n));
        stream::lemma_newlines(read, st.input.take(n));
    }
}

/// What is pulled is read on.
proof fn lemma_pulled(st: State, list: Seq<EventView>)
    requires
        document::pulled(st, list) is Some,
    ensures
        stream::reads_on(st, document::pulled(st, list)->0),
    decreases list.len(),
{
    if list.len() == 0 {
        assert(st.input.skip(0) =~= st.input);
        assert(st.input.take(0) =~= seq![]);
    } else {
        let after = document::reply(st)->Some_0.1;
        lemma_pulled(after, list.drop_first());
        lemma_reply_reads_on(st);
        lemma_reads_on(st, after, document::pulled(st, list)->0);
    }
}

#[verifier::spinoff_prover]
#[verifier::rlimit(50)]
proof fn lemma_reply_reads_on(st: State)
    requires
        document::reply(st) is Some,
    ensures
        stream::reads_on(st, document::reply(st)->Some_0.1),
        document::reply(st)->Some_0.0 matches Err(f) ==> f.line == document::reply(
            st,
        )->Some_0.1.line,
{
    reveal(document::reply);
    stream::law_reply_effects(st);
    lemma_failure_line(st);
}

proof fn lemma_reads_on(a: State, b: State, c: State)
    requires
        stream::reads_on(a, b),
        stream::reads_on(b, c),
    ensures
        stream::reads_on(a, c),
{
    let n = b.offset - a.offset;
    let m = c.offset - b.offset;
    assert(a.input.skip(n).skip(m) =~= a.input.skip(n + m));
    assert(a.input.take(n) + a.input.skip(n).take(m) =~= a.input.take(n + m));
    stream::lemma_newlines(a.input.take(n), a.input.skip(n).take(m));
}

/// Where the reading stands tells the line.
proof fn lemma_line(st: State, after: State, read: Seq<u8>, rest: Seq<u8>)
    requires
        stream::reads_on(st, after),
        st.line == 1,
        st.input == read + rest,
        after.input == rest,
    ensures
        after.line == line_behind(read),
{
    let n = after.offset - st.offset;
    assert(n == read.len());
    assert(st.input.take(n) =~= read);
    lemma_newlines(read);
}

/// A document that begins with markup is read from behind the byte-order mark.
#[verifier::spinoff_prover]
#[verifier::rlimit(50)]
proof fn lemma_opening(doc: Seq<char>, mark: bool, lenient: bool) -> (ready: State)
    requires
        doc.len() > 0,
        doc[0] == '<',
    ensures
        document::reply(document::before(doc, mark, lenient)) == document::reply(ready),
        document::ready(ready),
        ready.input == document::bytes(doc),
        ready.stack.len() == 0,
        !ready.seen_element,
        ready.line == 1,
{
    reveal(document::reply);
    let st = document::before(doc, mark, lenient);
    let past = if mark {
        st.advance(3)
    } else {
        st
    };
    let bytes = document::bytes(doc);
    document::lemma_encoded('<');
    let b = vstd::utf8::encode_scalar(doc[0] as u32);
    assert(bytes[0] == b[0]);
    if mark {
        assert(st.input.subrange(0, 3) =~= markup::utf8_mark());
        assert(past.input =~= bytes);
        let m = st.input.take(3);
        assert(m =~= markup::utf8_mark());
        lemma_newlines(m);
        reveal(Seq::filter);
        assert(m.drop_last().drop_last().drop_last() =~= seq![]);
        reveal_with_fuel(markup::newlines, 4);
    } else {
        assert(st.input =~= bytes);
        if st.input.len() >= 3 {
            assert(st.input.subrange(0, 3)[0] == markup::LT);
            assert(markup::utf8_mark()[0] == 0xefu8);
        }
        if st.input.len() >= 2 {
            assert(st.input.subrange(0, 2)[0] == markup::LT);
            assert(markup::utf16_le_mark()[0] == 0xffu8 && markup::utf16_be_mark()[0] == 0xfeu8);
        }
    }
    State { seen_content: true, ..past }
}

/// A run that a failure ends.
pub open spec fn fails_behind(run: Seq<Reply>, list: Seq<EventView>, line: int) -> bool {
    &&& run.len() == list.len() + 1
    &&& run.drop_last() == document::replies(list)
    &&& run.last() matches Err(f) && f.line == line
}

#[verifier::spinoff_prover]
#[verifier::rlimit(50)]
proof fn lemma_run_fails(st: State)
    requires
        document::reply(st) matches Some((Err(_), _)),
    ensures
        stream::run(st) == seq![document::reply(st)->Some_0.0],
{
    reveal(document::reply);
}

/// A run is decided by its first reply.
#[verifier::spinoff_prover]
#[verifier::rlimit(50)]
proof fn lemma_same_run(a: State, b: State)
    requires
        document::reply(a) is Some,
        document::reply(a) == document::reply(b),
    ensures
        stream::run(a) == stream::run(b),
{
    reveal(document::reply);
}

#[verifier::spinoff_prover]
#[verifier::rlimit(50)]
proof fn lemma_fails(st: State, list: Seq<EventView>, read: Seq<u8>, rest: Seq<u8>)
    requires
        document::pulled(st, list) is Some,
        forall|i: int| 0 <= i < list.len() ==> !((#[trigger] list[i]) is Eof),
        st.line == 1,
        st.input == read + rest,
        ({
            let last = document::pulled(st, list)->0;
            document::reply(last) matches Some((Err(_), after)) && after.input == rest
        }),
    ensures
        fails_behind(stream::run(st), list, line_behind(read)),
{
    let last = document::pulled(st, list)->0;
    let (answer, after) = document::reply(last)->0;
    document::lemma_run(st, list);
    lemma_run_fails(last);
    lemma_pulled(st, list);
    lemma_reply_reads_on(last);
    lemma_reads_on(st, last, after);
    lemma_line(st, after, read, rest);
    assert((document::replies(list) + seq![answer]).drop_last() =~= document::replies(list));
}

/// An end tag that does not name the innermost open element is refused.
#[verifier::spinoff_prover]
#[verifier::rlimit(50)]
proof fn lemma_wrong_end(st: State, other: Seq<char>, rest: Seq<u8>)
    requires
        document::ready(st),
        document::is_name(other),
        st.stack.len() == 0 || st.stack.last() != other,
        st.input == document::bytes(seq!['<', '/'] + other + seq!['>']) + rest,
    ensures
        document::reply(st) matches Some((Err(_), after)) && after.input == rest,
{
    reveal(document::reply);
    let open = seq!['<', '/'];
    let close = seq!['>'];
    document::lemma_name(other);
    document::lemma_bytes_concat(open + other, close);
    document::lemma_bytes_concat(open, other);
    document::lemma_ascii_text(open);
    document::lemma_ascii_text(close);
    assert(document::bytes(open) =~= seq![markup::LT, markup::SLASH]);
    assert(document::bytes(close) =~= markup::gt());
    assert(st.input[0] == document::bytes(open)[0] && st.input[1] == document::bytes(open)[1]);
    document::lemma_section(st, open, other, close, rest, "unterminated closing tag (missing '>')"@);
    assert(State { seen_content: true, ..st } =~= st);
}

/// A start tag as it is written.
pub open spec fn start_text(name: Seq<char>, attributes: Seq<(Seq<char>, Seq<char>)>) -> Seq<char> {
    seq!['<'] + name + document::attributes_text(attributes) + seq!['>']
}

/// A start tag that can be written.
pub open spec fn start_printable(
    name: Seq<char>,
    attributes: Seq<(Seq<char>, Seq<char>)>,
) -> bool {
    &&& document::is_name(name)
    &&& forall|i: int|
        0 <= i < attributes.len() ==> document::is_name((#[trigger] attributes[i]).0)
    &&& forall|i: int, j: int|
        0 <= i < j < attributes.len() ==> (#[trigger] attributes[i]).0 != (
        #[trigger] attributes[j]).0
}

/// A start tag and what stands behind it are read.
#[verifier::spinoff_prover]
#[verifier::rlimit(50)]
proof fn lemma_open_element(
    name: Seq<char>,
    attributes: Seq<(Seq<char>, Seq<char>)>,
    content: Seq<Node>,
    behind: Seq<char>,
    short: bool,
    mark: bool,
    lenient: bool,
) -> (ready: State)
    requires
        start_printable(name, attributes),
        document::all_printable(content),
        behind.len() > 0 ==> behind[0] == '<',
    ensures
        ({
            let doc = start_text(name, attributes) + document::all_printed(content, short) + behind;
            let st = document::before(doc, mark, lenient);
            let list = seq![EventView::Start { name, attributes }] + tree::all_events(content);
            &&& stream::run(st) == stream::run(ready)
            &&& ready.line == 1
            &&& ready.input == document::bytes(doc)
            &&& document::pulled(ready, list) matches Some(last) && document::ready(last)
                && last.input == document::bytes(behind) && last.stack == seq![name]
            &&& forall|i: int| 0 <= i < list.len() ==> !((#[trigger] list[i]) is Eof)
        }),
{
    let tag = start_text(name, attributes);
    let inner = document::all_printed(content, short);
    let doc = tag + inner + behind;
    let start = EventView::Start { name, attributes };
    let list = seq![start] + tree::all_events(content);
    assert(doc[0] == '<');
    let ready = lemma_opening(doc, mark, lenient);
    document::lemma_bytes_concat(tag + inner, behind);
    document::lemma_bytes_concat(tag, inner);
    let rest = document::bytes(inner) + document::bytes(behind);
    assert(ready.input =~= document::bytes(tag) + rest);
    document::lemma_start(ready, name, attributes, false, rest);
    let after = document::reply(ready)->Some_0.1;
    document::lemma_pulled_one(ready, start);
    assert(document::ready(after));
    if behind.len() > 0 {
        document::lemma_encoded('<');
        let b = vstd::utf8::encode_scalar(behind[0] as u32);
        assert(document::bytes(behind)[0] == b[0]);
    }
    document::lemma_content(after, content, short, document::bytes(behind));
    document::lemma_pulled_concat(ready, seq![start], tree::all_events(content));
    assert(after.stack =~= seq![name]);
    lemma_same_run(document::before(doc, mark, lenient), ready);
    document::lemma_no_end_in(content);
    assert forall|i: int| 0 <= i < list.len() implies !((#[trigger] list[i]) is Eof) by {
        if i > 0 {
            assert(list[i] == tree::all_events(content)[i - 1]);
        }
    }
    ready
}

/// An element is closed under its own name only: a document in which another
/// end tag stands where an element ends is read up to there and refused, at
/// the line of that tag, whatever follows.
#[verifier::spinoff_prover]
#[verifier::rlimit(50)]
pub proof fn law_wrong_end_tags_are_refused(
    name: Seq<char>,
    attributes: Seq<(Seq<char>, Seq<char>)>,
    content: Seq<Node>,
    other: Seq<char>,
    tail: Seq<char>,
    short: bool,
    mark: bool,
    lenient: bool,
)
    requires
        start_printable(name, attributes),
        document::all_printable(content),
        document::is_name(other),
        other != name,
    ensures
        ({
            let doc = start_text(name, attributes) + document::all_printed(content, short) + (seq![
                '<',
                '/',
            ] + other + seq!['>']);
            fails_behind(
                stream::run(document::before(doc + tail, mark, lenient)),
                seq![EventView::Start { name, attributes }] + tree::all_events(content),
                line_behind(document::bytes(doc)),
            )
        }),
{
    let end = seq!['<', '/'] + other + seq!['>'];
    let head = start_text(name, attributes) + document::all_printed(content, short);
    let doc = head + end;
    let list = seq![EventView::Start { name, attributes }] + tree::all_events(content);
    let ready = lemma_open_element(name, attributes, content, end + tail, short, mark, lenient);
    assert(head + (end + tail) =~= doc + tail);
    document::lemma_bytes_concat(end, tail);
    document::lemma_bytes_concat(doc, tail);
    let last = document::pulled(ready, list)->0;
    lemma_wrong_end(last, other, document::bytes(tail));
    lemma_fails(ready, list, document::bytes(doc), document::bytes(tail));
}

/// The end of a document with open elements is a failure.
proof fn lemma_end_refused(st: State)
    requires
        document::ready(st),
        st.input.len() == 0,
        st.stack.len() > 0 || !st.seen_element,
    ensures
        document::reply(st) matches Some((Err(_), after)) && after.input == st.input,
{
    reveal(document::reply);
}

/// A document that ends inside an element is refused, at its last line.
#[verifier::spinoff_prover]
#[verifier::rlimit(50)]
pub proof fn law_unclosed_elements_are_refused(
    name: Seq<char>,
    attributes: Seq<(Seq<char>, Seq<char>)>,
    content: Seq<Node>,
    short: bool,
    mark: bool,
    lenient: bool,
)
    requires
        start_printable(name, attributes),
        document::all_printable(content),
    ensures
        ({
            let doc = start_text(name, attributes) + document::all_printed(content, short);
            fails_behind(
                stream::run(document::before(doc, mark, lenient)),
                seq![EventView::Start { name, attributes }] + tree::all_events(content),
                line_behind(document::bytes(doc)),
            )
        }),
{
    let doc = start_text(name, attributes) + document::all_printed(content, short);
    let list = seq![EventView::Start { name, attributes }] + tree::all_events(content);
    let none = Seq::<char>::empty();
    let ready = lemma_open_element(name, attributes, content, none, short, mark, lenient);
    assert(doc + none =~= doc);
    assert(document::bytes(none) =~= seq![]);
    lemma_end_refused(document::pulled(ready, list)->0);
    assert(ready.input =~= document::bytes(doc) + document::bytes(none));
    lemma_fails(ready, list, document::bytes(doc), document::bytes(none));
}

/// An end tag with no element open is refused, at its line, whatever follows.
#[verifier::spinoff_prover]
#[verifier::rlimit(50)]
pub proof fn law_stray_end_tags_are_refused(
    content: Seq<Node>,
    other: Seq<char>,
    tail: Seq<char>,
    short: bool,
    mark: bool,
    lenient: bool,
)
    requires
        document::all_printable(content),
        content.len() > 0 ==> !(content[0] is Text),
        document::is_name(other),
    ensures
        ({
            let doc = document::all_printed(content, short) + (seq!['<', '/'] + other + seq!['>']);
            fails_behind(
                stream::run(document::before(doc + tail, mark, lenient)),
                tree::all_events(content),
                line_behind(document::bytes(doc)),
            )
        }),
{
    let end = seq!['<', '/'] + other + seq!['>'];
    let head = document::all_printed(content, short);
    let doc = head + end;
    let list = tree::all_events(content);
    lemma_printed_head(content, short);
    assert((doc + tail)[0] == '<');
    let ready = lemma_opening(doc + tail, mark, lenient);
    document::lemma_bytes_concat(doc, tail);
    document::lemma_bytes_concat(head, end);
    let rest = document::bytes(end) + document::bytes(tail);
    assert(ready.input =~= document::bytes(head) + rest);
    document::lemma_bytes_concat(seq!['<'], seq!['/'] + other + seq!['>']);
    assert(end =~= seq!['<'] + (seq!['/'] + other + seq!['>']));
    document::lemma_ascii_text(seq!['<']);
    assert(rest[0] == markup::LT);
    document::lemma_content(ready, content, short, rest);
    let last = document::pulled(ready, list)->0;
    lemma_wrong_end(last, other, document::bytes(tail));
    document::lemma_no_end_in(content);
    lemma_fails(ready, list, document::bytes(doc), document::bytes(tail));
    lemma_decided(ready);
    lemma_same_run(document::before(doc + tail, mark, lenient), ready);
}

/// A parser over a complete input replies.
proof fn lemma_decided(st: State)
    requires
        st.closed,
    ensures
        document::reply(st) is Some,
{
    reveal(document::reply);
    markup::law_closed_input_decides(st);
}

/// What is no text is written with `<` first.
proof fn lemma_printed_head(content: Seq<Node>, short: bool)
    requires
        content.len() > 0 ==> !(content[0] is Text),
    ensures
        content.len() > 0 ==> document::all_printed(content, short).len() > 0
            && document::all_printed(content, short)[0] == '<',
        content.len() == 0 ==> document::all_printed(content, short).len() == 0,
{
    reveal_strlit("<!--");
    reveal_strlit("<![CDATA[");
    reveal_strlit("<?");
    if content.len() > 0 {
        let first = document::printed(content[0], short);
        assert(first.len() > 0 && first[0] == '<');
    }
}

/// A document without an element is refused, at its last line.
#[verifier::spinoff_prover]
#[verifier::rlimit(50)]
pub proof fn law_documents_without_elements_are_refused(
    content: Seq<Node>,
    short: bool,
    mark: bool,
    lenient: bool,
)
    requires
        document::all_printable(content),
        content.len() > 0,
        !(content[0] is Text),
        !document::has_element(content),
    ensures
        fails_behind(
            stream::run(document::before(document::all_printed(content, short), mark, lenient)),
            tree::all_events(content),
            line_behind(document::bytes(document::all_printed(content, short))),
        ),
{
    let doc = document::all_printed(content, short);
    let list = tree::all_events(content);
    lemma_printed_head(content, short);
    let ready = lemma_opening(doc, mark, lenient);
    let none = Seq::<u8>::empty();
    assert(ready.input =~= document::bytes(doc) + none);
    document::lemma_content(ready, content, short, none);
    lemma_end_refused(document::pulled(ready, list)->0);
    document::lemma_no_end_in(content);
    lemma_fails(ready, list, document::bytes(doc), none);
    lemma_decided(ready);
    lemma_same_run(document::before(doc, mark, lenient), ready);
}

/// Attributes one of which has the name of another, or of one in `done`.
proof fn lemma_repeated(
    attributes: Seq<(Seq<char>, Seq<char>)>,
    element: Seq<char>,
    lenient: bool,
    done: Seq<(Seq<char>, Seq<char>)>,
    i: int,
    j: int,
)
    requires
        forall|k: int|
            0 <= k < attributes.len() ==> document::is_name((#[trigger] attributes[k]).0),
        0 <= j < attributes.len(),
        0 <= i < done.len() + j,
        (done + attributes)[i].0 == attributes[j].0,
    ensures
        markup::attributes(
            text::trim_start(document::attributes_text(attributes)),
            element,
            lenient,
            done,
        ) is Err,
    decreases attributes.len(),
{
    document::lemma_attributes_head(attributes);
    document::lemma_first_attribute(attributes, element, lenient, done);
    let key = attributes[0].0;
    if j == 0 {
        assert(done[i].0 == key);
        assert(markup::has_key(done, key));
    } else if !markup::has_key(done, key) {
        let others = attributes.drop_first();
        let next = done.push(attributes[0]);
        assert forall|k: int| 0 <= k < others.len() implies document::is_name(
            (#[trigger] others[k]).0,
        ) by {
            assert(others[k] == attributes[k + 1]);
        }
        assert(next + others =~= done + attributes);
        lemma_repeated(others, element, lenient, next, i, j - 1);
    }
}

/// A start tag with two attributes of one name is refused, at the line of the
/// tag's end, whatever follows.
#[verifier::spinoff_prover]
#[verifier::rlimit(50)]
pub proof fn law_repeated_attributes_are_refused(
    name: Seq<char>,
    attributes: Seq<(Seq<char>, Seq<char>)>,
    i: int,
    j: int,
    tail: Seq<char>,
    mark: bool,
    lenient: bool,
)
    requires
        document::is_name(name),
        forall|k: int|
            0 <= k < attributes.len() ==> document::is_name((#[trigger] attributes[k]).0),
        0 <= i < j < attributes.len(),
        attributes[i].0 == attributes[j].0,
    ensures
        fails_behind(
            stream::run(
                document::before(start_text(name, attributes) + tail, mark, lenient),
            ),
            seq![],
            line_behind(document::bytes(start_text(name, attributes))),
        ),
{
    let tag = start_text(name, attributes);
    let a = document::attributes_text(attributes);
    let none = Seq::<(Seq<char>, Seq<char>)>::empty();
    assert((tag + tail)[0] == '<');
    let ready = lemma_opening(tag + tail, mark, lenient);
    document::lemma_bytes_concat(tag, tail);
    let rest = document::bytes(tail);
    let raw = name + a + Seq::<char>::empty();
    assert(raw =~= name + a);
    assert(tag =~= seq!['<'] + (raw + seq!['>']));
    document::lemma_start_bytes(ready.input, name, attributes, Seq::<char>::empty(), rest);
    document::lemma_utf8(raw);
    document::lemma_name(name);
    assert(none + attributes =~= attributes);
    lemma_repeated(attributes, name, ready.lenient, none, i, j);
    lemma_tag_name(name, attributes);
    assert(document::reply(ready) matches Some((Err(_), after)) && after.input == rest) by {
        reveal(document::reply);
        assert(State { seen_content: true, ..ready } =~= ready);
    }
    lemma_fails(ready, seq![], document::bytes(tag), rest);
    lemma_same_run(document::before(tag + tail, mark, lenient), ready);
}

/// The name in the body of a start tag.
proof fn lemma_tag_name(name: Seq<char>, attributes: Seq<(Seq<char>, Seq<char>)>)
    requires
        document::is_name(name),
        attributes.len() > 0,
        forall|k: int|
            0 <= k < attributes.len() ==> document::is_name((#[trigger] attributes[k]).0),
    ensures
        ({
            let body = name + document::attributes_text(attributes);
            &&& text::trim(body) == body
            &&& markup::tag_name(body) == name
            &&& body.skip(name.len() as int) == document::attributes_text(attributes)
            &&& body.last() == '"'
        }),
{
    let a = document::attributes_text(attributes);
    let body = name + a;
    let n = name.len() as int;
    let white = |c: char| text::is_white(c);
    document::lemma_name(name);
    document::lemma_attributes_head(attributes);
    assert(body[0] == name[0]);
    assert(!text::is_white(name[0]));
    assert(body.last() == '"');
    assert(text::trim_start(body) == body);
    assert forall|k: int| 0 <= k < n implies !white(#[trigger] body[k]) by {
        assert(body[k] == name[k]);
    }
    assert(body[n] == ' ');
    text::lemma_first_where(body, white, n);
    assert(body.take(n) =~= name);
    assert(body.skip(n) =~= a);
}

/// Input with a UTF-16 byte-order mark is refused at once.
#[verifier::spinoff_prover]
#[verifier::rlimit(50)]
pub proof fn law_utf16_is_refused(input: Seq<u8>, lenient: bool)
    requires
        input.len() >= 2,
        (input[0] == 0xff && input[1] == 0xfe) || (input[0] == 0xfe && input[1] == 0xff),
    ensures
        fails_behind(stream::run(xml::fresh(input, true, lenient)), seq![], 1),
{
    let st = xml::fresh(input, true, lenient);
    let two = input.subrange(0, 2);
    if input.len() >= 3 {
        assert(input.subrange(0, 3)[0] == input[0]);
        assert(markup::utf8_mark()[0] == 0xefu8);
    }
    if input[0] == 0xff {
        assert(two =~= markup::utf16_le_mark());
    } else {
        assert(two =~= markup::utf16_be_mark());
    }
    assert(document::reply(st) matches Some((Err(f), _)) && f.line == 1) by {
        reveal(document::reply);
    }
    lemma_run_fails(st);
    assert(stream::run(st).drop_last() =~= document::replies(seq![]));
}

} // verus!
