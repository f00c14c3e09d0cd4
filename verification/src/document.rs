//! Documents as they are written, and what is read of them.
//!
//! [`printed`] writes pieces of a document down as XML. The laws say that the
//! parser reports of what is written just the pieces it was written from, and
//! that carving it gives just the selected elements.

use vstd::prelude::*;

use crate::carve;
use crate::carve::{Plan, Progress};
use crate::entity;
use crate::markup;
use crate::markup::{EventView, Failure, Reply, State};
use crate::stream;
use crate::text;
use crate::tree;
use crate::tree::Node;
use crate::xml;

verus! {

/// How an attribute is written.
pub open spec fn attribute_text(attribute: (Seq<char>, Seq<char>)) -> Seq<char> {
    seq![' '] + attribute.0 + seq!['=', '"'] + entity::xml_escaped(attribute.1) + seq!['"']
}

/// How attributes are written.
pub open spec fn attributes_text(attributes: Seq<(Seq<char>, Seq<char>)>) -> Seq<char>
    decreases attributes.len(),
{
    if attributes.len() == 0 {
        seq![]
    } else {
        attribute_text(attributes[0]) + attributes_text(attributes.drop_first())
    }
}

/// How a piece is written; an empty element with one tag, if `short`.
pub open spec fn printed(node: Node, short: bool) -> Seq<char>
    decreases node,
{
    match node {
        Node::Element { name, attributes, content } => if short && content.len() == 0 {
            seq!['<'] + name + attributes_text(attributes) + seq!['/', '>']
        } else {
            seq!['<'] + name + attributes_text(attributes) + seq!['>'] + all_printed(content, short)
                + (seq!['<', '/'] + name + seq!['>'])
        },
        Node::Text(s) => entity::xml_escaped(s),
        Node::CData(s) => "<![CDATA["@ + s + "]]>"@,
        Node::Comment(s) => "<!--"@ + s + "-->"@,
        Node::Pi(s) => "<?"@ + s + "?>"@,
    }
}

/// How pieces are written one after the other.
pub open spec fn all_printed(content: Seq<Node>, short: bool) -> Seq<char>
    decreases content,
{
    if content.len() == 0 {
        seq![]
    } else {
        printed(content[0], short) + all_printed(content.drop_first(), short)
    }
}

/// `mark` does not occur in `s`.
pub open spec fn without(s: Seq<char>, mark: Seq<char>) -> bool {
    forall|k: int|
        0 <= k && k + mark.len() <= s.len() ==> #[trigger] s.subrange(k, k + mark.len()) != mark
}

/// A name that can be written: not empty, without white space and without the
/// marks of XML.
pub open spec fn is_name(name: Seq<char>) -> bool {
    &&& name.len() > 0
    &&& forall|i: int|
        0 <= i < name.len() ==> {
            let c = #[trigger] name[i];
            !text::is_white(c) && c != '<' && c != '>' && c != '&' && c != '"' && c != '\'' && c
                != '=' && c != '/' && c != '!' && c != '?'
        }
}

/// A piece that can be written: names are names, those of attributes differ,
/// text is not empty and not next to text, and no section holds its own end.
pub open spec fn printable(node: Node) -> bool
    decreases node,
{
    match node {
        Node::Element { name, attributes, content } => {
            &&& is_name(name)
            &&& forall|i: int| 0 <= i < attributes.len() ==> is_name((#[trigger] attributes[i]).0)
            &&& forall|i: int, j: int|
                0 <= i < j < attributes.len() ==> (#[trigger] attributes[i]).0 != (
                #[trigger] attributes[j]).0
            &&& all_printable(content)
        },
        Node::Text(s) => s.len() > 0,
        Node::CData(s) => without(s, seq![']', ']', '>']),
        Node::Comment(s) => without(s, seq!['-', '-', '>']),
        Node::Pi(s) => s.len() > 0 && !text::is_white(s[0]) && s[0] != 'x' && s[0] != 'X' && without(
            s,
            seq!['?', '>'],
        ),
    }
}

/// Pieces that can be written one after the other.
pub open spec fn all_printable(content: Seq<Node>) -> bool
    decreases content,
{
    if content.len() == 0 {
        true
    } else {
        &&& printable(content[0])
        &&& all_printable(content.drop_first())
        &&& content.len() > 1 && content[0] is Text ==> !(content[1] is Text)
    }
}

/// The bytes of a text.
pub open spec fn bytes(s: Seq<char>) -> Seq<u8> {
    vstd::utf8::encode_utf8(s)
}

/// Texts are encoded one after the other.
pub proof fn lemma_bytes_concat(a: Seq<char>, b: Seq<char>)
    ensures
        bytes(a + b) == bytes(a) + bytes(b),
    decreases a.len(),
{
    if a.len() == 0 {
        assert(a + b =~= b);
        assert(bytes(a) + bytes(b) =~= bytes(b));
    } else {
        lemma_bytes_concat(a.drop_first(), b);
        assert((a + b).drop_first() =~= a.drop_first() + b);
        let first = vstd::utf8::encode_scalar(a[0] as u32);
        assert(first + (bytes(a.drop_first()) + bytes(b)) =~= bytes(a) + bytes(b));
    }
}

/// An ASCII character is one byte; others are bytes beyond ASCII.
pub proof fn lemma_encoded(c: char)
    ensures
        ({
            let b = vstd::utf8::encode_scalar(c as u32);
            &&& c as u32 <= 0x7f ==> b == seq![c as u32 as u8]
            &&& c as u32 > 0x7f ==> b.len() >= 2 && forall|i: int|
                0 <= i < b.len() ==> #[trigger] b[i] >= 0x80
        }),
{
    let n = c as u32;
    assert(n <= 0x7f ==> (n & 0x7f) as u8 == n as u8) by (bit_vector);
    assert((0xc0 | ((n >> 6) & 0x1f) as u8) >= 0x80) by (bit_vector);
    assert((0xe0 | ((n >> 12) & 0x0f) as u8) >= 0x80) by (bit_vector);
    assert((0xf0 | ((n >> 18) & 0x7) as u8) >= 0x80) by (bit_vector);
    assert((0x80 | (n & 0x3f) as u8) >= 0x80) by (bit_vector);
    assert((0x80 | ((n >> 6) & 0x3f) as u8) >= 0x80) by (bit_vector);
    assert((0x80 | ((n >> 12) & 0x3f) as u8) >= 0x80) by (bit_vector);
    let b = vstd::utf8::encode_scalar(n);
    if n <= 0x7f {
        assert(b =~= seq![n as u8]);
    }
}

/// A byte of ASCII comes from its character only.
proof fn lemma_ascii_byte(s: Seq<char>, b: u8)
    requires
        b < 0x80,
        forall|i: int| 0 <= i < s.len() ==> (#[trigger] s[i]) as u32 != b,
    ensures
        forall|i: int| 0 <= i < bytes(s).len() ==> #[trigger] bytes(s)[i] != b,
    decreases s.len(),
{
    if s.len() > 0 {
        let rest = s.drop_first();
        assert forall|i: int| 0 <= i < rest.len() implies (#[trigger] rest[i]) as u32 != b by {
            assert(rest[i] == s[i + 1]);
        }
        lemma_ascii_byte(rest, b);
        lemma_encoded(s[0]);
        let first = vstd::utf8::encode_scalar(s[0] as u32);
        assert(s[0] as u32 != b);
        assert forall|i: int| 0 <= i < bytes(s).len() implies #[trigger] bytes(s)[i] != b by {
            if i >= first.len() {
                assert(bytes(s)[i] == bytes(rest)[i - first.len()]);
            } else {
                assert(bytes(s)[i] == first[i]);
            }
        }
    }
}

/// Text of ASCII is encoded as it is.
pub proof fn lemma_ascii_text(s: Seq<char>)
    requires
        forall|i: int| 0 <= i < s.len() ==> (#[trigger] s[i]) as u32 <= 0x7f,
    ensures
        bytes(s) == s.map_values(|c: char| c as u32 as u8),
    decreases s.len(),
{
    let wanted = s.map_values(|c: char| c as u32 as u8);
    if s.len() == 0 {
        assert(wanted =~= seq![]);
    } else {
        let rest = s.drop_first();
        assert forall|i: int| 0 <= i < rest.len() implies (#[trigger] rest[i]) as u32 <= 0x7f by {
            assert(rest[i] == s[i + 1]);
        }
        lemma_ascii_text(rest);
        lemma_encoded(s[0]);
        assert(s[0] as u32 <= 0x7f);
        assert(bytes(s) =~= wanted);
    }
}

/// Bytes of ASCII at the start of a text are characters at its start.
proof fn lemma_starts_with(s: Seq<char>, mark: Seq<char>)
    requires
        forall|i: int| 0 <= i < mark.len() ==> (#[trigger] mark[i]) as u32 <= 0x7f,
        bytes(mark).is_prefix_of(bytes(s)),
    ensures
        mark.is_prefix_of(s),
    decreases mark.len(),
{
    if mark.len() > 0 {
        let m = mark.drop_first();
        lemma_encoded(mark[0]);
        assert(mark[0] as u32 <= 0x7f);
        assert(bytes(mark)[0] == mark[0] as u32 as u8);
        assert(bytes(s).len() > 0);
        assert(bytes(s)[0] == bytes(mark)[0]);
        assert(s.len() > 0);
        lemma_encoded(s[0]);
        let first = vstd::utf8::encode_scalar(s[0] as u32);
        assert(bytes(s)[0] == first[0]);
        assert(s[0] as u32 == mark[0] as u32);
        lemma_same_char(s[0], mark[0]);
        assert forall|i: int| 0 <= i < m.len() implies (#[trigger] m[i]) as u32 <= 0x7f by {
            assert(m[i] == mark[i + 1]);
        }
        assert(bytes(m).is_prefix_of(bytes(s.drop_first()))) by {
            assert forall|i: int| 0 <= i < bytes(m).len() implies bytes(m)[i] == bytes(
                s.drop_first(),
            )[i] by {
                assert(bytes(mark)[i + 1] == bytes(m)[i]);
                assert(bytes(s)[i + 1] == bytes(s.drop_first())[i]);
            }
        }
        lemma_starts_with(s.drop_first(), m);
        assert forall|i: int| 0 <= i < mark.len() implies mark[i] == s[i] by {
            if i > 0 {
                assert(m[i - 1] == s.drop_first()[i - 1]);
            }
        }
    }
}

/// Bytes of ASCII inside a text are characters inside it.
proof fn lemma_occurs(s: Seq<char>, mark: Seq<char>, at: int)
    requires
        mark.len() > 0,
        forall|i: int| 0 <= i < mark.len() ==> (#[trigger] mark[i]) as u32 <= 0x7f,
        0 <= at,
        at + bytes(mark).len() <= bytes(s).len(),
        bytes(s).subrange(at, at + bytes(mark).len()) == bytes(mark),
    ensures
        !without(s, mark),
    decreases s.len(),
{
    lemma_ascii_text(mark);
    lemma_encoded(mark[0]);
    assert(mark[0] as u32 <= 0x7f);
    if s.len() == 0 {
        assert(bytes(s).len() == 0);
    } else {
        let first = vstd::utf8::encode_scalar(s[0] as u32);
        let rest = s.drop_first();
        lemma_encoded(s[0]);
        if at >= first.len() {
            assert(bytes(rest).subrange(
                at - first.len(),
                at - first.len() + bytes(mark).len(),
            ) =~= bytes(s).subrange(at, at + bytes(mark).len()));
            lemma_occurs(rest, mark, at - first.len());
            let k = choose|k: int|
                0 <= k && k + mark.len() <= rest.len() && #[trigger] rest.subrange(
                    k,
                    k + mark.len(),
                ) == mark;
            assert(s.subrange(k + 1, k + 1 + mark.len()) =~= rest.subrange(k, k + mark.len()));
        } else {
            assert(bytes(s)[at] == bytes(s).subrange(at, at + bytes(mark).len())[0]);
            assert(bytes(s)[at] == first[at]);
            assert(at == 0);
            assert forall|i: int| 0 <= i < bytes(mark).len() implies bytes(mark)[i] == bytes(
                s,
            )[i] by {
                assert(bytes(s).subrange(0, bytes(mark).len() as int)[i] == bytes(s)[i]);
            }
            lemma_starts_with(s, mark);
            assert(s.subrange(0, 0int + mark.len()) =~= mark);
        }
    }
}

/// Characters of one number are one character.
pub proof fn lemma_same_char(a: char, b: char)
    requires
        a as u32 == b as u32,
    ensures
        a == b,
{
    vstd::utf8::char_u32_cast(a, a as u32);
    vstd::utf8::char_u32_cast(b, b as u32);
}

/// No mark begins inside a text without it.
proof fn lemma_no_early_mark(s: Seq<char>, mark: Seq<char>, rest: Seq<u8>, i: int)
    requires
        mark.len() > 0,
        forall|k: int| 0 <= k < mark.len() ==> (#[trigger] mark[k]) as u32 <= 0x7f,
        forall|k: int| 0 <= k < mark.len() - 1 ==> #[trigger] mark[k] != mark.last(),
        without(s, mark),
        0 <= i < bytes(s).len(),
    ensures
        (bytes(s) + (bytes(mark) + rest)).subrange(i, i + bytes(mark).len()) != bytes(mark),
{
    let input = bytes(s) + (bytes(mark) + rest);
    let n = bytes(s).len() as int;
    let m = bytes(mark).len() as int;
    lemma_ascii_text(mark);
    let piece = input.subrange(i, i + m);
    if piece == bytes(mark) {
        if i + m <= n {
            assert(bytes(s).subrange(i, i + m) =~= piece);
            lemma_occurs(s, mark, i);
        } else {
            let k = i + m - 1 - n;
            assert(piece[m - 1] == input[i + m - 1]);
            assert(input[i + m - 1] == bytes(mark)[k]);
            assert(mark[k] as u32 <= 0x7f);
            assert(mark[m - 1] as u32 <= 0x7f);
            assert(bytes(mark)[m - 1] == mark[m - 1] as u32 as u8);
            assert(bytes(mark)[k] == mark[k] as u32 as u8);
            lemma_same_char(mark[k], mark[m - 1]);
        }
    }
}

/// The first occurrence of a mark behind a text without it is at its end. The
/// last character of the mark occurs in it once.
proof fn lemma_find_mark(s: Seq<char>, mark: Seq<char>, rest: Seq<u8>)
    requires
        mark.len() > 0,
        forall|i: int| 0 <= i < mark.len() ==> (#[trigger] mark[i]) as u32 <= 0x7f,
        forall|i: int| 0 <= i < mark.len() - 1 ==> #[trigger] mark[i] != mark.last(),
        without(s, mark),
    ensures
        markup::find(bytes(s) + (bytes(mark) + rest), bytes(mark)) == Some(bytes(s).len() as int),
{
    let input = bytes(s) + (bytes(mark) + rest);
    let needle = bytes(mark);
    let n = bytes(s).len() as int;
    assert(needle.len() == mark.len()) by {
        lemma_ascii_text(mark);
    }
    assert(input.subrange(n, n + needle.len()) =~= needle);
    assert forall|i: int| 0 <= i < n implies #[trigger] input.subrange(i, i + needle.len())
        != needle by {
        lemma_no_early_mark(s, mark, rest, i);
    }
    lemma_find_at(input, needle, n);
}

/// An occurrence with none before it is what is found.
proof fn lemma_find_at(input: Seq<u8>, needle: Seq<u8>, at: int)
    requires
        needle.len() > 0,
        0 <= at,
        at + needle.len() <= input.len(),
        input.subrange(at, at + needle.len()) == needle,
        forall|i: int| 0 <= i < at ==> #[trigger] input.subrange(i, i + needle.len()) != needle,
    ensures
        markup::find(input, needle) == Some(at),
    decreases at,
{
    let m = needle.len() as int;
    assert(input.take(m) =~= input.subrange(0, m));
    if at > 0 {
        let rest = input.skip(1);
        assert(rest.subrange(at - 1, at - 1 + m) =~= input.subrange(at, at + m));
        assert forall|i: int| 0 <= i < at - 1 implies #[trigger] rest.subrange(i, i + m)
            != needle by {
            assert(rest.subrange(i, i + m) =~= input.subrange(i + 1, i + 1 + m));
        }
        lemma_find_at(rest, needle, at - 1);
        assert(input.subrange(0, 0 + m) != needle);
    }
}

/// A parser over a complete input that is past its first byte and between two
/// events.
pub open spec fn ready(st: State) -> bool {
    st.closed && st.pending is None && !st.finished && st.seen_content
}

/// `after` is `st` with nothing changed but that it stands before `rest`.
pub open spec fn moved(st: State, after: State, rest: Seq<u8>) -> bool {
    &&& after.input == rest
    &&& after.stack == st.stack
    &&& after.seen_element == st.seen_element
    &&& after.lenient == st.lenient
    &&& ready(after)
}

/// Text is read from its bytes.
pub proof fn lemma_utf8(s: Seq<char>)
    ensures
        markup::utf8_text(bytes(s)) == Ok::<Seq<char>, Seq<char>>(s),
{
    vstd::utf8::encode_utf8_valid_utf8(s);
    vstd::utf8::encode_utf8_decode_utf8(s);
}

/// A section between two marks is read.
pub proof fn lemma_section(
    st: State,
    open: Seq<char>,
    s: Seq<char>,
    close: Seq<char>,
    rest: Seq<u8>,
    missing: Seq<char>,
)
    requires
        ready(st),
        st.input == bytes(open + s + close) + rest,
        forall|k: int| 0 <= k < open.len() ==> (#[trigger] open[k]) as u32 <= 0x7f,
        close.len() > 0,
        forall|k: int| 0 <= k < close.len() ==> (#[trigger] close[k]) as u32 <= 0x7f,
        forall|k: int| 0 <= k < close.len() - 1 ==> #[trigger] close[k] != close.last(),
        without(s, close),
    ensures
        markup::section(st, open.len() as int, bytes(close), missing) matches markup::Section::Body(
            body,
            after,
        ) && body == s && moved(st, after, rest),
{
    lemma_bytes_concat(open + s, close);
    lemma_bytes_concat(open, s);
    lemma_ascii_text(open);
    let n = open.len() as int;
    let inner = st.advance(n);
    assert(inner.input =~= bytes(s) + (bytes(close) + rest));
    lemma_find_mark(s, close, rest);
    let end = bytes(s).len() as int;
    assert(inner.input.take(end) =~= bytes(s));
    lemma_utf8(s);
    assert(inner.advance(end + bytes(close).len()).input =~= rest);
}

/// The marks of sections, as bytes.
pub proof fn lemma_marks()
    ensures
        "<!--"@.len() == 4 && "<![CDATA["@.len() == 9 && "<?"@.len() == 2,
        "-->"@ == seq!['-', '-', '>'] && "]]>"@ == seq![']', ']', '>'] && "?>"@ == seq!['?', '>'],
        forall|k: int| 0 <= k < 4 ==> (#[trigger] "<!--"@[k]) as u32 <= 0x7f,
        forall|k: int| 0 <= k < 9 ==> (#[trigger] "<![CDATA["@[k]) as u32 <= 0x7f,
        forall|k: int| 0 <= k < 2 ==> (#[trigger] "<?"@[k]) as u32 <= 0x7f,
        bytes("<!--"@) == seq![markup::LT, markup::BANG] + markup::comment_open(),
        bytes("<![CDATA["@) == seq![markup::LT, markup::BANG] + markup::cdata_open(),
        bytes("<?"@) == seq![markup::LT, markup::QUESTION],
        bytes("-->"@) == markup::comment_close(),
        bytes("]]>"@) == markup::cdata_close(),
        bytes("?>"@) == markup::pi_close(),
{
    reveal_strlit("<!--");
    reveal_strlit("<![CDATA[");
    reveal_strlit("<?");
    reveal_strlit("-->");
    reveal_strlit("]]>");
    reveal_strlit("?>");
    assert("-->"@ =~= seq!['-', '-', '>']);
    assert("]]>"@ =~= seq![']', ']', '>']);
    assert("?>"@ =~= seq!['?', '>']);
    lemma_ascii_text("<!--"@);
    lemma_ascii_text("<![CDATA["@);
    lemma_ascii_text("<?"@);
    lemma_ascii_text("-->"@);
    lemma_ascii_text("]]>"@);
    lemma_ascii_text("?>"@);
    assert(bytes("<!--"@) =~= seq![markup::LT, markup::BANG] + markup::comment_open());
    assert(bytes("<![CDATA["@) =~= seq![markup::LT, markup::BANG] + markup::cdata_open());
    assert(bytes("<?"@) =~= seq![markup::LT, markup::QUESTION]);
    assert(bytes("-->"@) =~= markup::comment_close());
    assert(bytes("]]>"@) =~= markup::cdata_close());
    assert(bytes("?>"@) =~= markup::pi_close());
}

/// The event of a piece that is one event.
#[verifier::spinoff_prover]
#[verifier::rlimit(50)]
proof fn lemma_comment(st: State, s: Seq<char>, rest: Seq<u8>)
    requires
        ready(st),
        without(s, seq!['-', '-', '>']),
        st.input == bytes("<!--"@ + s + "-->"@) + rest,
    ensures
        reply(st) matches Some((answer, after)) && answer == Ok::<EventView, Failure>(
            EventView::Comment(s),
        ) && moved(st, after, rest),
{
    reveal(reply);
    lemma_marks();
    lemma_bytes_concat("<!--"@ + s, "-->"@);
    lemma_bytes_concat("<!--"@, s);
    let open = bytes("<!--"@);
    assert(st.input[0] == open[0] && st.input[1] == open[1]);
    assert(st.input.subrange(2, 4) =~= markup::comment_open());
    lemma_section(st, "<!--"@, s, "-->"@, rest, "unterminated comment (missing '-->')"@);
    assert(State { seen_content: true, ..st } =~= st);
}

#[verifier::spinoff_prover]
#[verifier::rlimit(50)]
proof fn lemma_cdata(st: State, s: Seq<char>, rest: Seq<u8>)
    requires
        ready(st),
        without(s, seq![']', ']', '>']),
        st.input == bytes("<![CDATA["@ + s + "]]>"@) + rest,
    ensures
        reply(st) matches Some((answer, after)) && answer == Ok::<EventView, Failure>(
            EventView::CData(s),
        ) && moved(st, after, rest),
{
    reveal(reply);
    lemma_marks();
    lemma_bytes_concat("<![CDATA["@ + s, "]]>"@);
    lemma_bytes_concat("<![CDATA["@, s);
    let open = bytes("<![CDATA["@);
    assert(st.input[0] == open[0] && st.input[1] == open[1] && st.input[2] == open[2]);
    assert(st.input.subrange(2, 4)[0] == markup::LBRACKET);
    assert(st.input.subrange(2, 9) =~= markup::cdata_open());
    lemma_section(
        st,
        "<![CDATA["@,
        s,
        "]]>"@,
        rest,
        "unterminated CDATA section (missing ']]>')"@,
    );
    assert(State { seen_content: true, ..st } =~= st);
}

#[verifier::spinoff_prover]
#[verifier::rlimit(50)]
proof fn lemma_pi(st: State, s: Seq<char>, rest: Seq<u8>)
    requires
        ready(st),
        printable(Node::Pi(s)),
        st.input == bytes("<?"@ + s + "?>"@) + rest,
    ensures
        reply(st) matches Some((answer, after)) && answer == Ok::<EventView, Failure>(
            EventView::Pi(s),
        ) && moved(st, after, rest),
{
    reveal(reply);
    lemma_marks();
    lemma_bytes_concat("<?"@ + s, "?>"@);
    lemma_bytes_concat("<?"@, s);
    let open = bytes("<?"@);
    assert(st.input[0] == open[0] && st.input[1] == open[1]);
    lemma_section(
        st,
        "<?"@,
        s,
        "?>"@,
        rest,
        "unterminated processing instruction (missing '?>')"@,
    );
    assert(State { seen_content: true, ..st } =~= st);
    let word = markup::first_word(s);
    assert(markup::lowered(word) != "xml"@) by {
        reveal_strlit("xml");
        text::lemma_first_where_found(s, |c: char| text::is_white(c));
        assert("xml"@.len() == 3 && "xml"@[0] == 'x');
        if markup::lowered(word) == "xml"@ {
            assert(word.len() == 3);
            assert(markup::lowered(word)[0] == markup::lower(word[0]));
            assert(word[0] == s[0]);
        }
    }
}

/// Escaped text holds no `<`, no `"` and no `>`.
pub proof fn lemma_escaped_chars(s: Seq<char>)
    ensures
        forall|i: int|
            0 <= i < entity::xml_escaped(s).len() ==> {
                let c = #[trigger] entity::xml_escaped(s)[i];
                c != '<' && c != '>' && c != '"'
            },
        s.len() > 0 ==> entity::xml_escaped(s).len() > 0,
    decreases s.len(),
{
    if s.len() > 0 {
        reveal_strlit("&amp;");
        reveal_strlit("&lt;");
        reveal_strlit("&gt;");
        reveal_strlit("&quot;");
        reveal_strlit("&apos;");
        lemma_escaped_chars(s.skip(1));
        let first = entity::xml_escape(s[0]);
        let rest = entity::xml_escaped(s.skip(1));
        assert forall|i: int| 0 <= i < entity::xml_escaped(s).len() implies {
            let c = #[trigger] entity::xml_escaped(s)[i];
            c != '<' && c != '>' && c != '"'
        } by {
            if i >= first.len() {
                assert(entity::xml_escaped(s)[i] == rest[i - first.len()]);
            } else {
                assert(entity::xml_escaped(s)[i] == first[i]);
            }
        }
    }
}

/// A byte of ASCII, not in a text before `rest`, is found where `rest` begins.
#[verifier::spinoff_prover]
#[verifier::rlimit(50)]
proof fn lemma_text(st: State, s: Seq<char>, rest: Seq<u8>)
    requires
        ready(st),
        s.len() > 0,
        st.input == bytes(entity::xml_escaped(s)) + rest,
        rest.len() > 0 ==> rest[0] == markup::LT,
    ensures
        reply(st) matches Some((answer, after)) && answer == Ok::<EventView, Failure>(
            EventView::Text(s),
        ) && moved(st, after, rest),
{
    reveal(reply);
    let t = entity::xml_escaped(s);
    let n = bytes(t).len() as int;
    lemma_escaped_chars(s);
    lemma_encoded(t[0]);
    assert(n > 0);
    assert forall|i: int| 0 <= i < t.len() implies (#[trigger] t[i]) as u32 != markup::LT by {
        if t[i] as u32 == '<' as u32 {
            lemma_same_char(t[i], '<');
        }
    }
    lemma_ascii_byte(t, markup::LT);
    let needle = markup::lt();
    assert forall|i: int| 0 <= i < n implies st.input[i] != markup::LT by {
        assert(st.input[i] == bytes(t)[i]);
    }
    assert(State { seen_content: true, ..st } =~= st);
    assert(st.input.take(n) =~= bytes(t));
    lemma_utf8(t);
    entity::law_escaped_text_decodes_back(s, st.lenient);
    assert(st.advance(n).input =~= rest);
    if rest.len() > 0 {
        assert(st.input.subrange(n, n + 1) =~= needle);
        assert forall|i: int| 0 <= i < n implies #[trigger] st.input.subrange(i, i + needle.len())
            != needle by {
            assert(st.input.subrange(i, i + 1)[0] == st.input[i]);
        }
        lemma_find_at(st.input, needle, n);
    } else {
        stream::lemma_find(st.input, needle);
        if let Some(k) = markup::find(st.input, needle) {
            assert(st.input.subrange(k, k + 1)[0] == st.input[k]);
        }
        assert(st.input.take(st.input.len() as int) =~= bytes(t));
    }
}

/// A name has no white space around it.
pub proof fn lemma_name(name: Seq<char>)
    requires
        is_name(name),
    ensures
        text::trim(name) == name,
        text::trim_start(name) == name,
        text::index_of_white(name) is None,
        markup::is_attribute_name(name),
        !markup::has_name_breaker(name),
        without(name, seq!['>']),
        bytes(name).len() > 0,
        bytes(name)[0] != markup::BANG,
        bytes(name)[0] != markup::QUESTION,
        bytes(name)[0] != markup::SLASH,
{
    let white = |c: char| text::is_white(c);
    assert(!text::is_white(name[0]) && !text::is_white(name[name.len() - 1]));
    assert forall|k: int| 0 <= k < name.len() implies !white(#[trigger] name[k]) by {}
    text::lemma_first_where_none(name, white);
    assert forall|c: char|
        c == '"' || c == '\'' || c == '=' || c == '<' || c == '&' implies !name.contains(c) by {
        if name.contains(c) {
            let k = name.index_of(c);
            assert(name[k] == c);
        }
    }
    assert forall|k: int| 0 <= k && k + 1 <= name.len() implies #[trigger] name.subrange(k, k + 1)
        != seq!['>'] by {
        assert(name.subrange(k, k + 1)[0] == name[k]);
        assert(name[k] != '>');
    }
    assert(seq!['>'].len() == 1);
    lemma_encoded(name[0]);
    let first = vstd::utf8::encode_scalar(name[0] as u32);
    assert(bytes(name)[0] == first[0]);
    if name[0] as u32 == '!' as u32 {
        lemma_same_char(name[0], '!');
    }
    if name[0] as u32 == '?' as u32 {
        lemma_same_char(name[0], '?');
    }
    if name[0] as u32 == '/' as u32 {
        lemma_same_char(name[0], '/');
    }
}

/// The end tag of the innermost element is read.
#[verifier::spinoff_prover]
#[verifier::rlimit(50)]
proof fn lemma_end(st: State, name: Seq<char>, rest: Seq<u8>)
    requires
        ready(st),
        is_name(name),
        st.stack.len() > 0,
        st.stack.last() == name,
        st.input == bytes(seq!['<', '/'] + name + seq!['>']) + rest,
    ensures
        reply(st) matches Some((answer, after)) && answer == Ok::<EventView, Failure>(
            EventView::End { name },
        ) && moved(State { stack: st.stack.drop_last(), ..st }, after, rest),
{
    reveal(reply);
    let open = seq!['<', '/'];
    let close = seq!['>'];
    lemma_name(name);
    lemma_bytes_concat(open + name, close);
    lemma_bytes_concat(open, name);
    lemma_ascii_text(open);
    lemma_ascii_text(close);
    assert(bytes(open) =~= seq![markup::LT, markup::SLASH]);
    assert(bytes(close) =~= markup::gt());
    assert(st.input[0] == bytes(open)[0] && st.input[1] == bytes(open)[1]);
    lemma_section(st, open, name, close, rest, "unterminated closing tag (missing '>')"@);
    assert(State { seen_content: true, ..st } =~= st);
}

/// The attributes in front of the first space.
pub proof fn lemma_attributes_head(attributes: Seq<(Seq<char>, Seq<char>)>)
    requires
        forall|i: int| 0 <= i < attributes.len() ==> is_name((#[trigger] attributes[i]).0),
    ensures
        attributes.len() > 0 ==> attributes_text(attributes)[0] == ' '
            && attributes_text(attributes).last() == '"' && text::trim_start(
            attributes_text(attributes),
        ) == attributes_text(attributes).skip(1) && attributes_text(attributes).len() > 1,
        attributes.len() == 0 ==> attributes_text(attributes).len() == 0 && text::trim_start(
            attributes_text(attributes),
        ).len() == 0,
    decreases attributes.len(),
{
    if attributes.len() > 0 {
        let a = attributes_text(attributes);
        let first = attribute_text(attributes[0]);
        let key = attributes[0].0;
        let rest = attributes.drop_first();
        assert forall|i: int| 0 <= i < rest.len() implies is_name((#[trigger] rest[i]).0) by {
            assert(rest[i] == attributes[i + 1]);
        }
        lemma_attributes_head(rest);
        assert(a[0] == first[0]);
        assert(a[1] == first[1] && first[1] == key[0]);
        assert(!text::is_white(key[0]));
        assert(a.skip(1)[0] == key[0]);
        assert(text::trim_start(a.skip(1)) == a.skip(1));
        if rest.len() == 0 {
            assert(a =~= first);
        } else {
            assert(a.last() == attributes_text(rest).last());
        }
    }
}

/// The first attribute is read as it is written, and leaves the others; one
/// whose name was read before is refused.
#[verifier::spinoff_prover]
#[verifier::rlimit(40)]
pub proof fn lemma_first_attribute(
    attributes: Seq<(Seq<char>, Seq<char>)>,
    element: Seq<char>,
    lenient: bool,
    done: Seq<(Seq<char>, Seq<char>)>,
)
    requires
        attributes.len() > 0,
        forall|i: int| 0 <= i < attributes.len() ==> is_name((#[trigger] attributes[i]).0),
    ensures
        markup::has_key(done, attributes[0].0) ==> markup::attributes(
            attributes_text(attributes).skip(1),
            element,
            lenient,
            done,
        ) is Err,
        !markup::has_key(done, attributes[0].0) ==> markup::attributes(
            attributes_text(attributes).skip(1),
            element,
            lenient,
            done,
        ) == markup::attributes(
            text::trim_start(attributes_text(attributes.drop_first())),
            element,
            lenient,
            done.push(attributes[0]),
        ),
{
    let (key, value) = attributes[0];
    let tail = attributes_text(attributes.drop_first());
    let escaped = entity::xml_escaped(value);
    let rest = attributes_text(attributes).skip(1);
    let n = key.len() as int;
    let m = escaped.len() as int;
    assert(rest =~= key + (seq!['=', '"'] + escaped + seq!['"'] + tail));
    lemma_name(key);
    lemma_key_end(key, seq!['"'] + escaped + seq!['"'] + tail);
    assert(rest =~= key + (seq!['='] + (seq!['"'] + escaped + seq!['"'] + tail)));
    assert(text::index_of(rest, '=') == Some(n));
    assert(rest.take(n) =~= key);
    let after = rest.skip(n + 1);
    assert(after =~= seq!['"'] + (escaped + seq!['"'] + tail));
    assert(after[0] == '"');
    assert(text::trim_start(after) == after);
    let inner = after.skip(1);
    assert(inner =~= escaped + (seq!['"'] + tail));
    lemma_value_end(value, tail);
    assert(text::index_of(inner, '"') == Some(m));
    assert(inner.take(m) =~= escaped);
    entity::law_escaped_text_decodes_back(value, lenient);
    assert(inner.skip(m + 1) =~= tail);
    assert(quote_is_mark());
}

/// A double quote is a quotation mark.
spec fn quote_is_mark() -> bool {
    markup::quote_mark()('"')
}

/// A key ends at the first `=`.
pub proof fn lemma_key_end(key: Seq<char>, behind: Seq<char>)
    requires
        is_name(key),
    ensures
        text::index_of(key + (seq!['='] + behind), '=') == Some(key.len() as int),
{
    let rest = key + (seq!['='] + behind);
    let equals = text::equal_to('=');
    assert forall|k: int| 0 <= k < key.len() implies !equals(#[trigger] rest[k]) by {
        assert(rest[k] == key[k]);
    }
    assert(rest[key.len() as int] == '=');
    text::lemma_first_where(rest, equals, key.len() as int);
}

/// A value ends at the first quotation mark, and holds no `<`.
pub proof fn lemma_value_end(value: Seq<char>, tail: Seq<char>)
    ensures
        text::index_of(entity::xml_escaped(value) + (seq!['"'] + tail), '"') == Some(
            entity::xml_escaped(value).len() as int,
        ),
        !entity::xml_escaped(value).contains('<'),
{
    let escaped = entity::xml_escaped(value);
    let inner = escaped + (seq!['"'] + tail);
    let quote = text::equal_to('"');
    let m = escaped.len() as int;
    lemma_escaped_chars(value);
    assert forall|k: int| 0 <= k < m implies !quote(#[trigger] inner[k]) by {
        assert(inner[k] == escaped[k]);
    }
    assert(inner[m] == '"');
    text::lemma_first_where(inner, quote, m);
}

/// Attributes are read as they are written.
proof fn lemma_attributes(
    attributes: Seq<(Seq<char>, Seq<char>)>,
    element: Seq<char>,
    lenient: bool,
    done: Seq<(Seq<char>, Seq<char>)>,
)
    requires
        forall|i: int| 0 <= i < attributes.len() ==> is_name((#[trigger] attributes[i]).0),
        forall|i: int, j: int|
            0 <= i < j < attributes.len() ==> (#[trigger] attributes[i]).0 != (
            #[trigger] attributes[j]).0,
        forall|i: int, j: int|
            0 <= i < done.len() && 0 <= j < attributes.len() ==> (#[trigger] done[i]).0 != (
            #[trigger] attributes[j]).0,
    ensures
        markup::attributes(
            text::trim_start(attributes_text(attributes)),
            element,
            lenient,
            done,
        ) == Ok::<Seq<(Seq<char>, Seq<char>)>, Seq<char>>(done + attributes),
    decreases attributes.len(),
{
    lemma_attributes_head(attributes);
    if attributes.len() == 0 {
        assert(done + attributes =~= done);
    } else {
        let key = attributes[0].0;
        let others = attributes.drop_first();
        assert(!markup::has_key(done, key)) by {
            if markup::has_key(done, key) {
                let k = choose|k: int| 0 <= k < done.len() && (#[trigger] done[k]).0 == key;
                assert(done[k].0 != attributes[0].0);
            }
        }
        lemma_first_attribute(attributes, element, lenient, done);
        let next = done.push(attributes[0]);
        assert forall|i: int| 0 <= i < others.len() implies is_name((#[trigger] others[i]).0) by {
            assert(others[i] == attributes[i + 1]);
        }
        assert forall|i: int, j: int| 0 <= i < j < others.len() implies (#[trigger] others[i]).0
            != (#[trigger] others[j]).0 by {
            assert(others[i] == attributes[i + 1] && others[j] == attributes[j + 1]);
        }
        assert forall|i: int, j: int| 0 <= i < next.len() && 0 <= j < others.len() implies (
        #[trigger] next[i]).0 != (#[trigger] others[j]).0 by {
            assert(others[j] == attributes[j + 1]);
            if i < done.len() {
                assert(next[i] == done[i]);
            } else {
                assert(attributes[0].0 != attributes[j + 1].0);
            }
        }
        lemma_attributes(others, element, lenient, next);
        assert(next + others =~= done + attributes);
    }
}

/// The body of a start tag is read as it is written.
proof fn lemma_tag_content(
    name: Seq<char>,
    attributes: Seq<(Seq<char>, Seq<char>)>,
    lenient: bool,
)
    requires
        is_name(name),
        forall|i: int| 0 <= i < attributes.len() ==> is_name((#[trigger] attributes[i]).0),
        forall|i: int, j: int|
            0 <= i < j < attributes.len() ==> (#[trigger] attributes[i]).0 != (
            #[trigger] attributes[j]).0,
    ensures
        markup::tag_content(name + attributes_text(attributes), lenient) == Ok::<
            (Seq<char>, Seq<(Seq<char>, Seq<char>)>),
            Seq<char>,
        >((name, attributes)),
        (name + attributes_text(attributes)).last() != '/',
{
    let a = attributes_text(attributes);
    let body = name + a;
    let n = name.len() as int;
    let white = |c: char| text::is_white(c);
    lemma_name(name);
    lemma_attributes_head(attributes);
    assert(body[0] == name[0]);
    assert(!text::is_white(name[0]) && !text::is_white(name[n - 1]));
    assert(name[n - 1] != '/');
    assert(body.last() == (if attributes.len() == 0 {
        name[n - 1]
    } else {
        '"'
    }));
    assert(text::trim(body) == body);
    assert forall|k: int| 0 <= k < n implies !white(#[trigger] body[k]) by {
        assert(body[k] == name[k]);
    }
    if attributes.len() == 0 {
        assert(body =~= name);
    } else {
        assert(body[n] == ' ');
        text::lemma_first_where(body, white, n);
        assert(body.take(n) =~= name);
    }
    assert(body.skip(n) =~= a);
    lemma_attributes(attributes, name, lenient, seq![]);
    assert(Seq::<(Seq<char>, Seq<char>)>::empty() + attributes =~= attributes);
}

/// Bytes that are no quotes and no `>` are passed over.
pub proof fn lemma_tag_end_plain(input: Seq<u8>, i: int, n: int)
    requires
        0 <= i,
        0 <= n,
        i + n <= input.len(),
        forall|k: int|
            i <= k < i + n ==> (#[trigger] input[k]) != markup::GT && input[k] != markup::QUOT
                && input[k] != markup::APOS,
    ensures
        markup::tag_end(input, i, None) == markup::tag_end(input, i + n, None),
    decreases n,
{
    if n > 0 {
        assert(input[i] != markup::GT);
        lemma_tag_end_plain(input, i + 1, n - 1);
    }
}

/// A quoted value is passed over.
proof fn lemma_tag_end_value(input: Seq<u8>, i: int, n: int)
    requires
        0 <= i,
        0 <= n,
        i + n < input.len(),
        forall|k: int| i <= k < i + n ==> (#[trigger] input[k]) != markup::QUOT,
        input[i + n] == markup::QUOT,
    ensures
        markup::tag_end(input, i, Some(markup::QUOT)) == markup::tag_end(input, i + n + 1, None),
    decreases n,
{
    if n > 0 {
        assert(input[i] != markup::QUOT);
        lemma_tag_end_value(input, i + 1, n - 1);
    }
}

/// Text without a character has no byte of it.
pub proof fn lemma_no_byte(s: Seq<char>, c: char)
    requires
        c as u32 <= 0x7f,
        forall|i: int| 0 <= i < s.len() ==> #[trigger] s[i] != c,
    ensures
        forall|i: int| 0 <= i < bytes(s).len() ==> #[trigger] bytes(s)[i] != c as u32 as u8,
{
    assert forall|i: int| 0 <= i < s.len() implies (#[trigger] s[i]) as u32 != c as u32 as u8 by {
        if s[i] as u32 == c as u32 {
            lemma_same_char(s[i], c);
        }
    }
    lemma_ascii_byte(s, c as u32 as u8);
}

/// Text that can stand in a tag outside of quotes.
pub proof fn lemma_plain_bytes(s: Seq<char>)
    requires
        forall|i: int| 0 <= i < s.len() ==> (#[trigger] s[i]) != '>' && s[i] != '"' && s[i] != '\'',
    ensures
        forall|i: int|
            0 <= i < bytes(s).len() ==> (#[trigger] bytes(s)[i]) != markup::GT && bytes(s)[i]
                != markup::QUOT && bytes(s)[i] != markup::APOS,
{
    lemma_no_byte(s, '>');
    lemma_no_byte(s, '"');
    lemma_no_byte(s, '\'');
}

/// The attributes of a tag are passed over.
proof fn lemma_tag_end_attributes(
    attributes: Seq<(Seq<char>, Seq<char>)>,
    input: Seq<u8>,
    i: int,
    rest: Seq<u8>,
)
    requires
        forall|k: int| 0 <= k < attributes.len() ==> is_name((#[trigger] attributes[k]).0),
        0 <= i <= input.len(),
        input.skip(i) == bytes(attributes_text(attributes)) + rest,
    ensures
        markup::tag_end(input, i, None) == markup::tag_end(
            input,
            i + bytes(attributes_text(attributes)).len(),
            None,
        ),
    decreases attributes.len(),
{
    if attributes.len() > 0 {
        let (key, value) = attributes[0];
        let others = attributes.drop_first();
        let tail = attributes_text(others);
        let escaped = entity::xml_escaped(value);
        let head = seq![' '] + key + seq!['='];
        let first = attribute_text(attributes[0]);
        assert(is_name(key));
        assert(first =~= head + (seq!['"'] + (escaped + seq!['"'])));
        lemma_bytes_concat(first, tail);
        lemma_bytes_concat(head, seq!['"'] + (escaped + seq!['"']));
        lemma_bytes_concat(seq!['"'], escaped + seq!['"']);
        lemma_bytes_concat(escaped, seq!['"']);
        lemma_ascii_text(seq!['"']);
        assert(bytes(seq!['"']) =~= seq![markup::QUOT]);
        assert forall|k: int| 0 <= k < head.len() implies (#[trigger] head[k]) != '>' && head[k]
            != '"' && head[k] != '\'' by {
            if 0 < k < head.len() - 1 {
                assert(head[k] == key[k - 1]);
            }
        }
        lemma_plain_bytes(head);
        let a = bytes(head).len() as int;
        let from = input.skip(i);
        assert(attributes_text(attributes) == first + tail);
        assert(from =~= bytes(head) + (seq![markup::QUOT] + (bytes(escaped) + seq![markup::QUOT]))
            + (bytes(tail) + rest));
        assert(from.len() == input.len() - i);
        assert forall|k: int| i <= k < i + a implies (#[trigger] input[k]) != markup::GT && input[k]
            != markup::QUOT && input[k] != markup::APOS by {
            assert(input[k] == from[k - i]);
            assert(from[k - i] == bytes(head)[k - i]);
        }
        lemma_tag_end_plain(input, i, a);
        assert(input[i + a] == from[a]);
        assert(from[a] == markup::QUOT);
        lemma_escaped_chars(value);
        lemma_no_byte(escaped, '"');
        let b = bytes(escaped).len() as int;
        assert forall|k: int| i + a + 1 <= k < i + a + 1 + b implies (#[trigger] input[k])
            != markup::QUOT by {
            assert(input[k] == from[k - i]);
            assert(from[k - i] == bytes(escaped)[k - i - a - 1]);
        }
        assert(input[i + a + 1 + b] == from[a + 1 + b]);
        assert(from[a + 1 + b] == markup::QUOT);
        lemma_tag_end_value(input, i + a + 1, b);
        let at = i + a + b + 2;
        assert(bytes(first).len() == a + b + 2);
        assert(input.skip(at) =~= bytes(tail) + rest) by {
            assert(input.skip(at) =~= from.skip(a + b + 2));
        }
        assert forall|k: int| 0 <= k < others.len() implies is_name((#[trigger] others[k]).0) by {
            assert(others[k] == attributes[k + 1]);
        }
        lemma_tag_end_attributes(others, input, at, rest);
    }
}

/// The bytes of a start tag, and where it ends.
#[verifier::spinoff_prover]
pub proof fn lemma_start_bytes(
    input: Seq<u8>,
    name: Seq<char>,
    attributes: Seq<(Seq<char>, Seq<char>)>,
    slash: Seq<char>,
    rest: Seq<u8>,
)
    requires
        is_name(name),
        forall|i: int| 0 <= i < attributes.len() ==> is_name((#[trigger] attributes[i]).0),
        slash == seq!['/'] || slash == Seq::<char>::empty(),
        input == bytes(seq!['<'] + (name + attributes_text(attributes) + slash + seq!['>'])) + rest,
    ensures
        input.len() >= 2,
        input[0] == markup::LT,
        input[1] == bytes(name)[0],
        ({
            let raw = name + attributes_text(attributes) + slash;
            let end = 1int + bytes(raw).len();
            &&& markup::tag_end(input, 1, None) == Some(end)
            &&& input.subrange(1, end) == bytes(raw)
            &&& end + 1 == input.len() - rest.len()
            &&& input.skip(end + 1) == rest
        }),
{
    let a = attributes_text(attributes);
    let raw = name + a + slash;
    lemma_bytes_concat(seq!['<'], raw + seq!['>']);
    lemma_bytes_concat(raw, seq!['>']);
    lemma_bytes_concat(name + a, slash);
    lemma_bytes_concat(name, a);
    lemma_ascii_text(seq!['<']);
    lemma_ascii_text(seq!['>']);
    lemma_ascii_text(slash);
    assert(bytes(seq!['<']) =~= seq![markup::LT]);
    assert(bytes(seq!['>']) =~= seq![markup::GT]);
    lemma_name(name);
    let n = bytes(name).len() as int;
    let m = bytes(a).len() as int;
    let k = bytes(slash).len() as int;
    let behind = bytes(slash) + seq![markup::GT] + rest;
    assert(input =~= seq![markup::LT] + (bytes(name) + (bytes(a) + behind)));
    assert(input[1] == bytes(name)[0]);
    assert forall|i: int| 0 <= i < name.len() implies (#[trigger] name[i]) != '>' && name[i] != '"'
        && name[i] != '\'' by {}
    lemma_plain_bytes(name);
    assert forall|i: int| 1 <= i < 1 + n implies (#[trigger] input[i]) != markup::GT && input[i]
        != markup::QUOT && input[i] != markup::APOS by {
        assert(input[i] == bytes(name)[i - 1]);
    }
    lemma_tag_end_plain(input, 1, n);
    assert(input.skip(1 + n) =~= bytes(a) + behind);
    lemma_tag_end_attributes(attributes, input, 1 + n, behind);
    let end = 1 + n + m + k;
    if slash == seq!['/'] {
        assert(bytes(slash) =~= seq![markup::SLASH]);
        assert(input[1 + n + m] == markup::SLASH);
        lemma_tag_end_plain(input, 1 + n + m, 1);
    } else {
        assert(bytes(slash) =~= seq![]);
    }
    assert(bytes(raw).len() == n + m + k);
    assert(input[end] == markup::GT);
    assert(input.subrange(1, end) =~= bytes(raw));
    assert(input.skip(end + 1) =~= rest);
}

/// A start tag is read as it is written; one that is an element by itself, if
/// `short`.
#[verifier::spinoff_prover]
pub proof fn lemma_start(
    st: State,
    name: Seq<char>,
    attributes: Seq<(Seq<char>, Seq<char>)>,
    short: bool,
    rest: Seq<u8>,
)
    requires
        ready(st),
        is_name(name),
        forall|i: int| 0 <= i < attributes.len() ==> is_name((#[trigger] attributes[i]).0),
        forall|i: int, j: int|
            0 <= i < j < attributes.len() ==> (#[trigger] attributes[i]).0 != (
            #[trigger] attributes[j]).0,
        st.input == bytes(
            seq!['<'] + name + attributes_text(attributes) + (if short {
                seq!['/', '>']
            } else {
                seq!['>']
            }),
        ) + rest,
    ensures
        reply(st) matches Some((answer, after)) && answer == Ok::<EventView, Failure>(
            EventView::Start { name, attributes },
        ) && after == (State {
            stack: st.stack.push(name),
            seen_element: true,
            pending: if short {
                Some(name)
            } else {
                None
            },
            ..st.advance(st.input.len() - rest.len())
        }) && after.input == rest,
{
    reveal(reply);
    let a = attributes_text(attributes);
    let slash = if short {
        seq!['/']
    } else {
        seq![]
    };
    let raw = name + a + slash;
    let all = seq!['<'] + name + a + (if short {
        seq!['/', '>']
    } else {
        seq!['>']
    });
    assert(all =~= seq!['<'] + (raw + seq!['>']));
    lemma_start_bytes(st.input, name, attributes, slash, rest);
    lemma_name(name);
    lemma_utf8(raw);
    lemma_tag_content(name, attributes, st.lenient);
    if short {
        assert(raw.drop_last() =~= name + a);
        assert(raw.last() == '/');
    } else {
        assert(raw =~= name + a);
    }
    assert(State { seen_content: true, ..st } =~= st);
}

/// The next reply of the parser, as [`markup::next`] says.
#[verifier::opaque]
pub open spec fn reply(st: State) -> Option<(Reply, State)> {
    markup::next(st)
}

/// The parser pulled once for each event of a list; `None` if it reports
/// something else.
pub open spec fn pulled(st: State, list: Seq<EventView>) -> Option<State>
    decreases list.len(),
{
    if list.len() == 0 {
        Some(st)
    } else {
        match reply(st) {
            Some((Ok(event), after)) => if event == list[0] {
                pulled(after, list.drop_first())
            } else {
                None
            },
            _ => None,
        }
    }
}

pub proof fn lemma_pulled_concat(st: State, a: Seq<EventView>, b: Seq<EventView>)
    requires
        pulled(st, a) is Some,
    ensures
        pulled(st, a + b) == pulled(pulled(st, a)->0, b),
    decreases a.len(),
{
    if a.len() == 0 {
        assert(a + b =~= b);
    } else {
        assert((a + b).drop_first() =~= a.drop_first() + b);
        if let Some((Ok(event), after)) = reply(st) {
            lemma_pulled_concat(after, a.drop_first(), b);
        }
    }
}

pub proof fn lemma_pulled_one(st: State, event: EventView)
    requires
        reply(st) matches Some((Ok(e), after)) && e == event,
    ensures
        pulled(st, seq![event]) == Some(reply(st)->Some_0.1),
{
    let after = reply(st)->Some_0.1;
    assert(seq![event].drop_first() =~= seq![]);
    assert(pulled(after, seq![event].drop_first()) == Some(after));
}

/// An element stands among the pieces.
pub open spec fn has_element(content: Seq<Node>) -> bool {
    exists|i: int| 0 <= i < content.len() && (#[trigger] content[i]) is Element
}

/// The pieces were read and the parser stands before `rest`.
pub open spec fn arrived(st: State, after: State, rest: Seq<u8>, element: bool) -> bool {
    &&& after.input == rest
    &&& after.stack == st.stack
    &&& after.lenient == st.lenient
    &&& after.seen_element == (st.seen_element || element)
    &&& ready(after)
}

/// One piece is read as it is written.
#[verifier::spinoff_prover]
#[verifier::rlimit(50)]
proof fn lemma_node(st: State, node: Node, short: bool, rest: Seq<u8>)
    requires
        ready(st),
        printable(node),
        st.input == bytes(printed(node, short)) + rest,
        node is Text ==> rest.len() > 0 ==> rest[0] == markup::LT,
    ensures
        pulled(st, tree::events(node)) matches Some(after) && arrived(
            st,
            after,
            rest,
            node is Element,
        ),
    decreases node, 1int,
{
    match node {
        Node::Text(s) => {
            lemma_text(st, s, rest);
            lemma_pulled_one(st, EventView::Text(s));
        },
        Node::CData(s) => {
            lemma_cdata(st, s, rest);
            lemma_pulled_one(st, EventView::CData(s));
        },
        Node::Comment(s) => {
            lemma_comment(st, s, rest);
            lemma_pulled_one(st, EventView::Comment(s));
        },
        Node::Pi(s) => {
            lemma_pi(st, s, rest);
            lemma_pulled_one(st, EventView::Pi(s));
        },
        Node::Element { name, attributes, content } => {
            let start = EventView::Start { name, attributes };
            let end = EventView::End { name };
            let a = attributes_text(attributes);
            let inner = tree::all_events(content);
            if short && content.len() == 0 {
                lemma_start(st, name, attributes, true, rest);
                lemma_pulled_one(st, start);
                let mid = reply(st)->Some_0.1;
                assert(reply(mid) == Some(
                    (
                        Ok::<EventView, Failure>(end),
                        State { pending: None, stack: mid.stack.drop_last(), ..mid },
                    ),
                )) by {
                    reveal(reply);
                }
                lemma_pulled_one(mid, end);
                assert(inner =~= seq![]);
                assert(tree::events(node) =~= seq![start] + seq![end]);
                lemma_pulled_concat(st, seq![start], seq![end]);
                assert(mid.stack.drop_last() =~= st.stack);
            } else {
                let open = seq!['<'] + name + a + seq!['>'];
                let close = seq!['<', '/'] + name + seq!['>'];
                let middle = all_printed(content, short);
                lemma_bytes_concat(open + middle, close);
                lemma_bytes_concat(open, middle);
                let behind = bytes(close) + rest;
                assert(st.input =~= bytes(open) + (bytes(middle) + behind));
                lemma_start(st, name, attributes, false, bytes(middle) + behind);
                lemma_pulled_one(st, start);
                let mid = reply(st)->Some_0.1;
                assert(behind.len() > 0 && behind[0] == markup::LT) by {
                    lemma_bytes_concat(seq!['<', '/'] + name, seq!['>']);
                    lemma_bytes_concat(seq!['<', '/'], name);
                    lemma_ascii_text(seq!['<', '/']);
                    assert(bytes(seq!['<', '/'])[0] == '<' as u32 as u8);
                }
                lemma_content(mid, content, short, behind);
                let full = pulled(mid, inner)->0;
                lemma_end(full, name, rest);
                lemma_pulled_one(full, end);
                lemma_pulled_concat(st, seq![start], inner);
                lemma_pulled_concat(st, seq![start] + inner, seq![end]);
                assert(full.stack.drop_last() =~= st.stack);
            }
        },
    }
}

/// Pieces are read as they are written, one after the other.
#[verifier::spinoff_prover]
#[verifier::rlimit(50)]
pub proof fn lemma_content(st: State, content: Seq<Node>, short: bool, rest: Seq<u8>)
    requires
        ready(st),
        all_printable(content),
        st.input == bytes(all_printed(content, short)) + rest,
        rest.len() > 0 ==> rest[0] == markup::LT,
    ensures
        pulled(st, tree::all_events(content)) matches Some(after) && arrived(
            st,
            after,
            rest,
            has_element(content),
        ),
    decreases content, 0int,
{
    if content.len() == 0 {
        assert(st.input =~= rest);
    } else {
        let node = content[0];
        let others = content.drop_first();
        let tail = all_printed(others, short);
        lemma_bytes_concat(printed(node, short), tail);
        let behind = bytes(tail) + rest;
        assert(st.input =~= bytes(printed(node, short)) + behind);
        if node is Text {
            lemma_head(others, short);
            if others.len() > 0 {
                assert(others[0] == content[1]);
            } else {
                assert(behind =~= rest);
            }
        }
        lemma_node(st, node, short, behind);
        let mid = pulled(st, tree::events(node))->0;
        lemma_content(mid, others, short, rest);
        lemma_pulled_concat(st, tree::events(node), tree::all_events(others));
        assert(has_element(content) == (node is Element || has_element(others))) by {
            if has_element(content) {
                let i = choose|i: int| 0 <= i < content.len() && (#[trigger] content[i]) is Element;
                if i > 0 {
                    assert(others[i - 1] is Element);
                }
            }
            if has_element(others) {
                let i = choose|i: int| 0 <= i < others.len() && (#[trigger] others[i]) is Element;
                assert(content[i + 1] is Element);
            }
            if node is Element {
                assert(content[0] is Element);
            }
        }
    }
}

/// What is no text begins with `<`.
pub proof fn lemma_head(content: Seq<Node>, short: bool)
    requires
        all_printable(content),
        content.len() > 0 ==> !(content[0] is Text),
    ensures
        content.len() > 0 ==> bytes(all_printed(content, short)).len() > 0 && bytes(
            all_printed(content, short),
        )[0] == markup::LT,
        content.len() == 0 ==> bytes(all_printed(content, short)).len() == 0,
{
    if content.len() > 0 {
        let t = all_printed(content, short);
        let first = printed(content[0], short);
        reveal_strlit("<!--");
        reveal_strlit("<![CDATA[");
        reveal_strlit("<?");
        assert(first.len() > 0 && first[0] == '<');
        assert(t[0] == '<');
        lemma_encoded('<');
        let b = vstd::utf8::encode_scalar(t[0] as u32);
        assert(bytes(t)[0] == b[0]);
    }
}

/// Events as a parser replies them.
pub open spec fn replies(list: Seq<EventView>) -> Seq<Reply> {
    list.map_values(|e: EventView| Ok::<EventView, Failure>(e))
}

/// No piece is the end of the input.
pub proof fn lemma_no_end_in(content: Seq<Node>)
    ensures
        forall|i: int|
            0 <= i < tree::all_events(content).len() ==> !((#[trigger] tree::all_events(
                content,
            )[i]) is Eof),
    decreases content,
{
    if content.len() > 0 {
        lemma_no_end_of(content[0]);
        lemma_no_end_in(content.drop_first());
        let first = tree::events(content[0]);
        let rest = tree::all_events(content.drop_first());
        assert forall|i: int| 0 <= i < tree::all_events(content).len() implies !((
        #[trigger] tree::all_events(content)[i]) is Eof) by {
            if i < first.len() {
                assert(tree::all_events(content)[i] == first[i]);
            } else {
                assert(tree::all_events(content)[i] == rest[i - first.len()]);
            }
        }
    }
}

proof fn lemma_no_end_of(node: Node)
    ensures
        forall|i: int|
            0 <= i < tree::events(node).len() ==> !((#[trigger] tree::events(node)[i]) is Eof),
    decreases node,
{
    if let Node::Element { name, attributes, content } = node {
        lemma_no_end_in(content);
        let inner = tree::all_events(content);
        assert forall|i: int| 0 <= i < tree::events(node).len() implies !((
        #[trigger] tree::events(node)[i]) is Eof) by {
            if 0 < i <= inner.len() {
                assert(tree::events(node)[i] == inner[i - 1]);
            }
        }
    }
}

/// A run begins with the events that were pulled.
#[verifier::spinoff_prover]
#[verifier::rlimit(50)]
pub proof fn lemma_run(st: State, list: Seq<EventView>)
    requires
        pulled(st, list) is Some,
        forall|i: int| 0 <= i < list.len() ==> !((#[trigger] list[i]) is Eof),
    ensures
        stream::run(st) == replies(list) + stream::run(pulled(st, list)->0),
    decreases list.len(),
{
    if list.len() == 0 {
        assert(replies(list) + stream::run(st) =~= stream::run(st));
    } else {
        assert(!(list[0] is Eof));
        let after = reply(st)->Some_0.1;
        let rest = list.drop_first();
        assert forall|i: int| 0 <= i < rest.len() implies !((#[trigger] rest[i]) is Eof) by {
            assert(rest[i] == list[i + 1]);
        }
        lemma_run(after, rest);
        lemma_run_step(st);
        assert(replies(list) =~= seq![Ok::<EventView, Failure>(list[0])] + replies(rest));
        assert(stream::run(st) =~= replies(list) + stream::run(pulled(st, list)->0));
    }
}

/// One step of a run.
#[verifier::spinoff_prover]
#[verifier::rlimit(50)]
proof fn lemma_run_step(st: State)
    requires
        reply(st) matches Some((answer, _)) && !stream::is_last(answer),
    ensures
        stream::run(st) == seq![reply(st)->Some_0.0] + stream::run(reply(st)->Some_0.1),
{
    reveal(reply);
}

/// The parser before a document, past a byte-order mark if there is one.
pub open spec fn before(document: Seq<char>, mark: bool, lenient: bool) -> State {
    xml::fresh(
        (if mark {
            markup::utf8_mark()
        } else {
            seq![]
        }) + bytes(document),
        true,
        lenient,
    )
}

/// The first reply comes from a parser that is past the byte-order mark.
#[verifier::spinoff_prover]
#[verifier::rlimit(50)]
proof fn lemma_first(content: Seq<Node>, short: bool, mark: bool, lenient: bool)
    requires
        all_printable(content),
        content.len() > 0,
        !(content[0] is Text),
    ensures
        ({
            let st = before(all_printed(content, short), mark, lenient);
            let past = if mark {
                st.advance(3)
            } else {
                st
            };
            let ready_st = State { seen_content: true, ..past };
            &&& reply(st) == reply(ready_st)
            &&& ready(ready_st)
            &&& ready_st.input == bytes(all_printed(content, short)) + Seq::<u8>::empty()
        }),
{
    reveal(reply);
    let st = before(all_printed(content, short), mark, lenient);
    let doc = bytes(all_printed(content, short));
    lemma_head(content, short);
    if mark {
        assert(st.input.subrange(0, 3) =~= markup::utf8_mark());
        assert(st.advance(3).input =~= doc);
        assert(doc =~= doc + Seq::<u8>::empty());
    } else {
        assert(st.input =~= doc);
        assert(doc =~= doc + Seq::<u8>::empty());
        if st.input.len() >= 3 {
            assert(st.input.subrange(0, 3)[0] == markup::LT);
            assert(markup::utf8_mark()[0] == 0xefu8);
        }
        if st.input.len() >= 2 {
            assert(st.input.subrange(0, 2)[0] == markup::LT);
            assert(markup::utf16_le_mark()[0] == 0xffu8 && markup::utf16_be_mark()[0] == 0xfeu8);
        }
    }
}

/// The end of a document.
#[verifier::spinoff_prover]
#[verifier::rlimit(50)]
proof fn lemma_last(st: State)
    requires
        ready(st),
        st.input.len() == 0,
        st.stack.len() == 0,
        st.seen_element,
    ensures
        reply(st) == Some(
            (Ok::<EventView, Failure>(EventView::Eof), State { finished: true, ..st }),
        ),
        stream::run(st) == seq![Ok::<EventView, Failure>(EventView::Eof)],
{
    reveal(reply);
}

/// What the parser comes to when all pieces of a document are read.
#[verifier::spinoff_prover]
#[verifier::rlimit(50)]
pub proof fn lemma_all_read(content: Seq<Node>, short: bool, mark: bool, lenient: bool)
    requires
        all_printable(content),
        has_element(content),
        !(content[0] is Text),
    ensures
        ({
            let st = before(all_printed(content, short), mark, lenient);
            &&& pulled(st, tree::all_events(content)) matches Some(after) && reply(after) == Some(
                (Ok::<EventView, Failure>(EventView::Eof), State { finished: true, ..after }),
            ) && stream::run(after) == seq![Ok::<EventView, Failure>(EventView::Eof)]
        }),
{
    let st = before(all_printed(content, short), mark, lenient);
    let past = if mark {
        st.advance(3)
    } else {
        st
    };
    let ready_st = State { seen_content: true, ..past };
    let list = tree::all_events(content);
    lemma_first(content, short, mark, lenient);
    lemma_content(ready_st, content, short, seq![]);
    assert(list.len() > 0) by {
        if let Node::Element { name, attributes, content: inner } = content[0] {
            assert(tree::events(content[0]).len() > 0);
        }
    }
    assert(pulled(st, list) == pulled(ready_st, list));
    lemma_last(pulled(st, list)->0);
}

/// What is written is what is read: of a document that is written down the
/// parser reports each piece, in order, with its names, attributes and texts
/// character for character, and then the end; with or without a byte-order
/// mark, and whether empty elements are written with one tag or with two.
#[verifier::spinoff_prover]
#[verifier::rlimit(50)]
pub proof fn law_documents_read_back(
    content: Seq<Node>,
    short: bool,
    mark: bool,
    lenient: bool,
)
    requires
        all_printable(content),
        has_element(content),
        !(content[0] is Text),
    ensures
        stream::run(before(all_printed(content, short), mark, lenient)) == replies(
            tree::all_events(content),
        ).push(Ok::<EventView, Failure>(EventView::Eof)),
{
    let st = before(all_printed(content, short), mark, lenient);
    let list = tree::all_events(content);
    lemma_all_read(content, short, mark, lenient);
    lemma_no_end_in(content);
    lemma_run(st, list);
    assert(replies(list) + seq![Ok::<EventView, Failure>(EventView::Eof)] =~= replies(list).push(
        Ok::<EventView, Failure>(EventView::Eof),
    ));
}

/// The driver takes the events that are pulled.
#[verifier::spinoff_prover]
#[verifier::rlimit(40)]
proof fn lemma_carved(plan: Plan, st: State, p: Progress, list: Seq<EventView>)
    requires
        plan.limit is None,
        !p.done,
        pulled(st, list) is Some,
        forall|i: int| 0 <= i < list.len() ==> !((#[trigger] list[i]) is Eof),
    ensures
        ({
            let (q, records) = tree::drive(plan, p, list);
            let rest = carve::carved(plan, pulled(st, list)->0, q);
            &&& carve::carved(plan, st, p) == (carve::Outcome {
                records: records + rest.records,
                ..rest
            })
            &&& !q.done
        }),
    decreases list.len(),
{
    if list.len() == 0 {
        let rest = carve::carved(plan, st, p);
        assert(Seq::<crate::json::Json>::empty() + rest.records =~= rest.records);
    } else {
        assert(!(list[0] is Eof));
        let after = reply(st)->Some_0.1;
        let (q, record) = carve::step(plan, p, list[0]);
        let others = list.drop_first();
        assert forall|i: int| 0 <= i < others.len() implies !((#[trigger] others[i]) is Eof) by {
            assert(others[i] == list[i + 1]);
        }
        lemma_not_done(plan, p, list[0]);
        lemma_carved(plan, after, q, others);
        lemma_carved_step(plan, st, p);
        let (last, records) = tree::drive(plan, q, others);
        let rest = carve::carved(plan, pulled(st, list)->0, last);
        if let Some(value) = record {
            assert(seq![value] + (records + rest.records) =~= seq![value] + records + rest.records);
        } else {
            assert(Seq::<crate::json::Json>::empty() + records =~= records);
        }
    }
}

proof fn lemma_not_done(plan: Plan, p: Progress, event: EventView)
    requires
        plan.limit is None,
        !p.done,
        !(event is Eof),
    ensures
        !carve::step(plan, p, event).0.done,
{
}

#[verifier::spinoff_prover]
#[verifier::rlimit(50)]
proof fn lemma_carved_step(plan: Plan, st: State, p: Progress)
    requires
        !p.done,
        reply(st) matches Some((Ok(event), after)) && !carve::step(plan, p, event).0.done,
    ensures
        reply(st) matches Some((Ok(event), after)) && carve::carved(plan, st, p) == carve::preceded(
            carve::step(plan, p, event).1,
            carve::carved(plan, after, carve::step(plan, p, event).0),
        ),
{
    reveal(reply);
}

/// Carving a document that is written down gives the selected elements, in
/// document order, each as a whole: one record for every element that a
/// selector matches and that is not inside another such, and nothing else.
#[verifier::spinoff_prover]
#[verifier::rlimit(50)]
pub proof fn law_carving_gives_the_selected_elements(
    plan: Plan,
    content: Seq<Node>,
    short: bool,
    mark: bool,
)
    requires
        plan.limit is None,
        plan.skip == 0,
        all_printable(content),
        has_element(content),
        !(content[0] is Text),
    ensures
        ({
            let o = carve::carved(
                plan,
                before(all_printed(content, short), mark, plan.lenient),
                carve::idle(),
            );
            &&& o.records == tree::records_in(plan, seq![], content)
            &&& carve::succeeded(o)
            &&& o.progress.matched == o.records.len()
            &&& o.progress.written == o.records.len()
        }),
{
    let st = before(all_printed(content, short), mark, plan.lenient);
    let list = tree::all_events(content);
    lemma_all_read(content, short, mark, plan.lenient);
    lemma_no_end_in(content);
    lemma_carved(plan, st, carve::idle(), list);
    tree::law_records_are_the_selected_elements(plan, carve::idle(), content);
    let after = pulled(st, list)->0;
    let q = tree::drive(plan, carve::idle(), list).0;
    assert(carve::carved(plan, after, q) == (carve::Outcome {
        records: seq![],
        stop: Some(Ok(after.offset)),
        progress: Progress { done: true, ..q },
    })) by {
        reveal(reply);
    }
    let records = tree::records_in(plan, seq![], content);
    assert(records + Seq::<crate::json::Json>::empty() =~= records);
}

} // verus!
