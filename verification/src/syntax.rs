//! The other forms that markup may take: document type declarations, the XML
//! declaration, and attributes in either quotes.

use vstd::prelude::*;

use crate::document;
use crate::entity;
use crate::markup;
use crate::markup::{EventView, Failure, State};
use crate::text;

verus! {

/// A part of a document type declaration, in bytes.
pub enum Part {
    /// No quotes, no brackets.
    Plain(Seq<u8>),
    /// What stands between two quotes of one kind.
    Quoted(u8, Seq<u8>),
    /// `<` ... `>`
    Nested(Seq<Part>),
    /// `[` ... `]`
    Subset(Seq<Part>),
}

/// How parts are written.
pub open spec fn parts_text(parts: Seq<Part>) -> Seq<u8>
    decreases parts,
{
    if parts.len() == 0 {
        seq![]
    } else {
        (match parts[0] {
            Part::Plain(s) => s,
            Part::Quoted(q, s) => seq![q] + s + seq![q],
            Part::Nested(inner) => seq![markup::LT] + parts_text(inner) + seq![markup::GT],
            Part::Subset(inner) => seq![markup::LBRACKET] + parts_text(inner) + seq![
                markup::RBRACKET,
            ],
        }) + parts_text(parts.drop_first())
    }
}

/// A byte with no meaning of its own in a document type declaration.
pub open spec fn is_plain(b: u8) -> bool {
    b != markup::QUOT && b != markup::APOS && b != markup::LT && b != markup::GT && b
        != markup::LBRACKET && b != markup::RBRACKET
}

/// Parts that can be written.
pub open spec fn parts_printable(parts: Seq<Part>) -> bool
    decreases parts,
{
    parts.len() > 0 ==> {
        &&& parts_printable(parts.drop_first())
        &&& match parts[0] {
            Part::Plain(s) => forall|i: int| 0 <= i < s.len() ==> is_plain(#[trigger] s[i]),
            Part::Quoted(q, s) => (q == markup::QUOT || q == markup::APOS) && forall|i: int|
                0 <= i < s.len() ==> #[trigger] s[i] != q,
            Part::Nested(inner) => parts_printable(inner),
            Part::Subset(inner) => parts_printable(inner),
        }
    }
}

/// Plain bytes are passed over.
proof fn lemma_plain(input: Seq<u8>, i: int, depth: int, n: int)
    requires
        0 <= i,
        0 <= n,
        i + n <= input.len(),
        forall|k: int| i <= k < i + n ==> is_plain(#[trigger] input[k]),
    ensures
        markup::doctype_end(input, i, depth, None) == markup::doctype_end(
            input,
            i + n,
            depth,
            None,
        ),
    decreases n,
{
    if n > 0 {
        assert(is_plain(input[i]));
        lemma_plain(input, i + 1, depth, n - 1);
    }
}

/// Quoted bytes are passed over.
proof fn lemma_quoted(input: Seq<u8>, i: int, depth: int, n: int, q: u8)
    requires
        0 <= i,
        0 <= n,
        i + n < input.len(),
        forall|k: int| i <= k < i + n ==> #[trigger] input[k] != q,
        input[i + n] == q,
    ensures
        markup::doctype_end(input, i, depth, Some(q)) == markup::doctype_end(
            input,
            i + n + 1,
            depth,
            None,
        ),
    decreases n,
{
    if n > 0 {
        assert(input[i] != q);
        lemma_quoted(input, i + 1, depth, n - 1, q);
    }
}

/// Parts are passed over.
#[verifier::spinoff_prover]
#[verifier::rlimit(50)]
proof fn lemma_parts(input: Seq<u8>, i: int, depth: int, parts: Seq<Part>, rest: Seq<u8>)
    requires
        0 <= i <= input.len(),
        0 <= depth,
        parts_printable(parts),
        input.skip(i) == parts_text(parts) + rest,
    ensures
        markup::doctype_end(input, i, depth, None) == markup::doctype_end(
            input,
            i + parts_text(parts).len(),
            depth,
            None,
        ),
    decreases parts,
{
    if parts.len() > 0 {
        let others = parts.drop_first();
        let tail = parts_text(others);
        let first = match parts[0] {
            Part::Plain(s) => s,
            Part::Quoted(q, s) => seq![q] + s + seq![q],
            Part::Nested(inner) => seq![markup::LT] + parts_text(inner) + seq![markup::GT],
            Part::Subset(inner) => seq![markup::LBRACKET] + parts_text(inner) + seq![
                markup::RBRACKET,
            ],
        };
        let n = first.len() as int;
        let from = input.skip(i);
        assert(from =~= first + (tail + rest));
        assert(from.len() == input.len() - i);
        assert forall|k: int| i <= k < i + n implies #[trigger] input[k] == first[k - i] by {
            assert(input[k] == from[k - i]);
        }
        match parts[0] {
            Part::Plain(s) => {
                lemma_plain(input, i, depth, n);
            },
            Part::Quoted(q, s) => {
                assert(input[i] == q);
                assert forall|k: int| i + 1 <= k < i + n - 1 implies #[trigger] input[k] != q by {
                    assert(input[k] == s[k - i - 1]);
                }
                assert(input[i + n - 1] == q);
                lemma_quoted(input, i + 1, depth, n - 2, q);
            },
            Part::Nested(inner) => {
                assert(input[i] == markup::LT);
                assert(input.skip(i + 1) =~= parts_text(inner) + (seq![markup::GT] + tail + rest))
                    by {
                    assert(input.skip(i + 1) =~= from.skip(1));
                }
                lemma_parts(input, i + 1, depth + 1, inner, seq![markup::GT] + tail + rest);
                assert(input[i + n - 1] == markup::GT);
            },
            Part::Subset(inner) => {
                assert(input[i] == markup::LBRACKET);
                assert(input.skip(i + 1) =~= parts_text(inner) + (seq![markup::RBRACKET] + tail
                    + rest)) by {
                    assert(input.skip(i + 1) =~= from.skip(1));
                }
                lemma_parts(input, i + 1, depth + 1, inner, seq![markup::RBRACKET] + tail + rest);
                assert(input[i + n - 1] == markup::RBRACKET);
            },
        }
        assert(input.skip(i + n) =~= tail + rest) by {
            assert(input.skip(i + n) =~= from.skip(n));
        }
        lemma_parts(input, i + n, depth, others, rest);
        assert(parts_text(parts).len() == n + tail.len());
    }
}

/// A document type declaration is skipped as a whole, whatever its quotes and
/// brackets hold, and nothing behind it.
#[verifier::spinoff_prover]
#[verifier::rlimit(50)]
pub proof fn law_document_types_are_skipped(
    st: State,
    upper: bool,
    parts: Seq<Part>,
    rest: Seq<u8>,
)
    requires
        document::ready(st),
        parts_printable(parts),
        st.input == document::bytes(
            if upper {
                seq!['<', '!', 'D', 'O', 'C', 'T', 'Y', 'P', 'E']
            } else {
                seq!['<', '!', 'd', 'o', 'c', 't', 'y', 'p', 'e']
            },
        ) + parts_text(parts) + seq!['>' as u32 as u8] + rest,
    ensures
        document::reply(st) matches Some((answer, after)) && answer == Ok::<EventView, Failure>(
            EventView::Doctype,
        ) && document::moved(st, after, rest),
{
    let intro = if upper {
        seq!['<', '!', 'D', 'O', 'C', 'T', 'Y', 'P', 'E']
    } else {
        seq!['<', '!', 'd', 'o', 'c', 't', 'y', 'p', 'e']
    };
    let word = if upper {
        markup::doctype_upper()
    } else {
        markup::doctype_lower()
    };
    document::lemma_ascii_text(intro);
    let b = document::bytes(intro);
    assert(b =~= seq![markup::LT, markup::BANG] + word);
    let body = parts_text(parts);
    let inner = st.advance(2);
    assert(st.input[0] == b[0] && st.input[1] == b[1] && st.input[2] == b[2] && st.input[3] == b[3]
        && st.input[4] == b[4]);
    assert(st.input.subrange(2, 9) =~= word);
    assert(inner.input =~= word + (body + (seq![markup::GT] + rest)));
    lemma_plain(inner.input, 0, 0, 7);
    assert(inner.input.skip(7) =~= body + (seq![markup::GT] + rest));
    lemma_parts(inner.input, 7, 0, parts, seq![markup::GT] + rest);
    let end = 7 + body.len() as int;
    assert(inner.input[end] == markup::GT);
    assert(inner.advance(end + 1).input =~= rest);
    assert(st.input.subrange(2, 4)[0] == word[0]);
    assert(markup::comment_open()[0] == markup::DASH);
    assert(markup::cdata_open()[0] == markup::LBRACKET);
    assert(st.input.subrange(2, 9)[0] == word[0]);
    assert(markup::doctype_upper()[0] == 0x44u8);
    assert(markup::doctype(st) == Some(
        (Ok::<EventView, Failure>(EventView::Doctype), inner.advance(end + 1)),
    ));
    reveal(document::reply);
    assert(State { seen_content: true, ..st } =~= st);
}

/// `a` is `name`, a text in lower case, but for the case of ASCII letters.
pub open spec fn same_but_case(a: Seq<char>, name: Seq<char>) -> bool {
    &&& a.len() == name.len()
    &&& forall|i: int|
        0 <= i < a.len() ==> (#[trigger] a[i]) == name[i] || ('a' <= name[i] <= 'z' && a[i] as int
            + 32 == name[i] as int)
}

proof fn lemma_lower(c: char)
    ensures
        'A' <= c <= 'Z' ==> markup::lower(c) as int == c as int + 32 && 'a' <= markup::lower(c)
            <= 'z',
        !('A' <= c <= 'Z') ==> markup::lower(c) == c,
        text::is_white(markup::lower(c)) == text::is_white(c),
        markup::lower(c) == '"' <==> c == '"',
        markup::lower(c) == '\'' <==> c == '\'',
{
}

proof fn lemma_lower_is(c: char, d: char)
    requires
        !('A' <= d <= 'Z'),
    ensures
        markup::lower(c) == d <==> (c == d || ('a' <= d <= 'z' && c as int + 32 == d as int)),
{
    lemma_lower(c);
    if 'a' <= d <= 'z' && c as int + 32 == d as int {
        assert('A' <= c <= 'Z');
        assert(markup::lower(c) as int == d as int);
    }
    if markup::lower(c) as u32 == d as u32 {
        document::lemma_same_char(markup::lower(c), d);
    }
}

proof fn lemma_lowered_is(a: Seq<char>, name: Seq<char>)
    requires
        forall|i: int| 0 <= i < name.len() ==> !('A' <= #[trigger] name[i] <= 'Z'),
    ensures
        markup::lowered(a) == name <==> same_but_case(a, name),
{
    let low = markup::lowered(a);
    if low == name {
        assert forall|i: int| 0 <= i < a.len() implies (#[trigger] a[i]) == name[i] || ('a'
            <= name[i] <= 'z' && a[i] as int + 32 == name[i] as int) by {
            assert(low[i] == markup::lower(a[i]));
            lemma_lower_is(a[i], name[i]);
        }
    }
    if same_but_case(a, name) {
        assert forall|i: int| 0 <= i < a.len() implies low[i] == name[i] by {
            assert(low[i] == markup::lower(a[i]));
            lemma_lower_is(a[i], name[i]);
        }
        assert(low =~= name);
    }
}

proof fn lemma_lowered_trim_start(s: Seq<char>)
    ensures
        text::trim_start(markup::lowered(s)) == markup::lowered(text::trim_start(s)),
    decreases s.len(),
{
    if s.len() > 0 {
        lemma_lower(s[0]);
        assert(markup::lowered(s)[0] == markup::lower(s[0]));
        lemma_lowered_trim_start(s.skip(1));
        assert(markup::lowered(s).skip(1) =~= markup::lowered(s.skip(1)));
    }
}

proof fn lemma_lowered_trim_end(s: Seq<char>)
    ensures
        text::trim_end(markup::lowered(s)) == markup::lowered(text::trim_end(s)),
    decreases s.len(),
{
    if s.len() > 0 {
        lemma_lower(s.last());
        assert(markup::lowered(s).last() == markup::lower(s.last()));
        lemma_lowered_trim_end(s.drop_last());
        assert(markup::lowered(s).drop_last() =~= markup::lowered(s.drop_last()));
    }
}

/// The place of a mark that does not occur earlier.
proof fn lemma_find_at(input: Seq<char>, needle: Seq<char>, at: int)
    requires
        needle.len() > 0,
        0 <= at,
        at + needle.len() <= input.len(),
        input.subrange(at, at + needle.len()) == needle,
        forall|i: int| 0 <= i < at ==> #[trigger] input.subrange(i, i + needle.len()) != needle,
    ensures
        markup::find(input, needle) == Some(at),
    decreases at,
{
    let m = needle.len() as int;
    assert(input.take(m) =~= input.subrange(0, m));
    if at > 0 {
        let rest = input.skip(1);
        assert(rest.subrange(at - 1, at - 1 + m) =~= input.subrange(at, at + m));
        assert forall|i: int| 0 <= i < at - 1 implies #[trigger] rest.subrange(i, i + m)
            != needle by {
            assert(rest.subrange(i, i + m) =~= input.subrange(i + 1, i + 1 + m));
        }
        lemma_find_at(rest, needle, at - 1);
        assert(input.subrange(0, 0 + m) != needle);
    }
}

proof fn lemma_find_none(input: Seq<char>, needle: Seq<char>)
    requires
        needle.len() > 0,
        document::without(input, needle),
    ensures
        markup::find(input, needle) is None,
    decreases input.len(),
{
    let m = needle.len() as int;
    if input.len() >= m {
        assert(input.take(m) =~= input.subrange(0, 0int + needle.len()));
        let rest = input.skip(1);
        assert forall|k: int| 0 <= k && k + needle.len() <= rest.len() implies
            #[trigger] rest.subrange(k, k + needle.len()) != needle by {
            assert(rest.subrange(k, k + needle.len()) =~= input.subrange(
                k + 1,
                k + 1 + needle.len(),
            ));
        }
        lemma_find_none(rest, needle);
    }
}

/// The start of an XML declaration, up to the value of its encoding.
pub open spec fn declaration_head() -> Seq<char> {
    "xml version=\"1.0\" encoding="@
}

/// The encoding of a declaration.
#[verifier::spinoff_prover]
#[verifier::rlimit(50)]
proof fn lemma_encoding(quote: char, encoding: Seq<char>, tail: Seq<char>)
    requires
        quote == '"' || quote == '\'',
        !encoding.contains(quote),
    ensures
        markup::declared_encoding(
            declaration_head() + seq![quote] + encoding + seq![quote] + tail,
        ) == Some(markup::lowered(text::trim(encoding))),
{
    let head = declaration_head();
    reveal_strlit("xml version=\"1.0\" encoding=");
    reveal_strlit("encoding");
    let body = head + seq![quote] + encoding + seq![quote] + tail;
    let low = markup::lowered(body);
    let word = "encoding"@;
    assert forall|i: int| 0 <= i < head.len() implies #[trigger] low[i] == head[i] by {
        assert(body[i] == head[i]);
        assert(low[i] == markup::lower(body[i]));
        lemma_lower(body[i]);
    }
    assert(head.len() == 27);
    assert(word.len() == 8);
    assert(low.subrange(18, 26) =~= word) by {
        assert(low[18] == 'e' && low[19] == 'n' && low[20] == 'c' && low[21] == 'o' && low[22]
            == 'd' && low[23] == 'i' && low[24] == 'n' && low[25] == 'g');
    }
    assert forall|i: int| 0 <= i < 18 implies #[trigger] low.subrange(i, i + word.len()) != word by {
        let part = low.subrange(i, i + word.len());
        assert(part[0] == low[i] && part[1] == low[i + 1]);
        assert(low[i] == head[i] && low[i + 1] == head[i + 1]);
        assert(word[0] == 'e' && word[1] == 'n');
    }
    lemma_find_at(low, word, 18);
    let rest = low.skip(26);
    let mark = markup::quote_mark();
    lemma_lower(quote);
    assert(rest[0] == low[26] && low[26] == '=');
    assert(body[27] == quote);
    assert(rest[1] == low[27] && low[27] == markup::lower(body[27]));
    assert(mark(rest[1]) && !mark(rest[0]));
    text::lemma_first_where(rest, mark, 1);
    let inner = rest.skip(2);
    let n = encoding.len() as int;
    let is_quote = text::equal_to(quote);
    assert forall|k: int| 0 <= k < n implies !is_quote(#[trigger] inner[k]) by {
        assert(inner[k] == low[28 + k]);
        assert(body[28 + k] == encoding[k]);
        assert(low[28 + k] == markup::lower(body[28 + k]));
        lemma_lower(encoding[k]);
        assert(encoding.contains(encoding[k]));
    }
    assert(inner[n] == low[28 + n]);
    assert(body[28 + n] == quote);
    assert(low[28 + n] == markup::lower(body[28 + n]));
    text::lemma_first_where(inner, is_quote, n);
    assert(inner.take(n) =~= markup::lowered(encoding)) by {
        assert forall|k: int| 0 <= k < n implies inner.take(n)[k] == markup::lowered(
            encoding,
        )[k] by {
            assert(body[28 + k] == encoding[k]);
            assert(low[28 + k] == markup::lower(body[28 + k]));
        }
    }
    lemma_lowered_trim_start(encoding);
    lemma_lowered_trim_end(text::trim_start(encoding));
}

/// A processing instruction is read as a declaration or as an instruction.
#[verifier::spinoff_prover]
#[verifier::rlimit(50)]
proof fn lemma_instruction(st: State, body: Seq<char>, rest: Seq<u8>)
    requires
        document::ready(st),
        document::without(body, seq!['?', '>']),
        st.input == document::bytes("<?"@ + body + "?>"@) + rest,
    ensures
        document::reply(st) is Some,
        ({
            let (answer, after) = document::reply(st)->0;
            &&& document::moved(st, after, rest)
            &&& if markup::lowered(markup::first_word(body)) == "xml"@ {
                match markup::declared_encoding(body) {
                    Some(encoding) => if markup::is_utf8_name(encoding) {
                        answer == Ok::<EventView, Failure>(EventView::Declaration)
                    } else {
                        answer is Err
                    },
                    None => answer == Ok::<EventView, Failure>(EventView::Declaration),
                }
            } else {
                answer == Ok::<EventView, Failure>(EventView::Pi(body))
            }
        }),
{
    reveal(document::reply);
    document::lemma_marks();
    document::lemma_bytes_concat("<?"@ + body, "?>"@);
    document::lemma_bytes_concat("<?"@, body);
    let open = document::bytes("<?"@);
    assert(st.input[0] == open[0] && st.input[1] == open[1]);
    document::lemma_section(
        st,
        "<?"@,
        body,
        "?>"@,
        rest,
        "unterminated processing instruction (missing '?>')"@,
    );
    assert(State { seen_content: true, ..st } =~= st);
}

/// A word is the first word.
proof fn lemma_first_word(word: Seq<char>, tail: Seq<char>)
    requires
        word.len() > 0,
        forall|i: int| 0 <= i < word.len() ==> !text::is_white(#[trigger] word[i]),
        tail.len() > 0 ==> text::is_white(tail[0]),
    ensures
        markup::first_word(word + tail) == word,
{
    let s = word + tail;
    let n = word.len() as int;
    let white = |c: char| text::is_white(c);
    assert(s[0] == word[0]);
    assert(text::trim_start(s) == s);
    assert forall|k: int| 0 <= k < n implies !white(#[trigger] s[k]) by {
        assert(s[k] == word[k]);
    }
    if tail.len() > 0 {
        assert(s[n] == tail[0]);
        text::lemma_first_where(s, white, n);
        assert(s.take(n) =~= word);
    } else {
        assert(s =~= word);
        text::lemma_first_where_none(s, white);
    }
}

/// A name of an encoding whose documents are UTF-8 documents, in either case.
pub open spec fn names_utf8(encoding: Seq<char>) -> bool {
    ||| same_but_case(encoding, seq!['u', 't', 'f', '-', '8'])
    ||| same_but_case(encoding, seq!['u', 't', 'f', '8'])
    ||| same_but_case(encoding, seq!['u', 's', '-', 'a', 's', 'c', 'i', 'i'])
    ||| same_but_case(encoding, seq!['a', 's', 'c', 'i', 'i'])
}

proof fn lemma_names_utf8(encoding: Seq<char>)
    ensures
        markup::is_utf8_name(markup::lowered(encoding)) == names_utf8(encoding),
{
    reveal_strlit("utf-8");
    reveal_strlit("utf8");
    reveal_strlit("us-ascii");
    reveal_strlit("ascii");
    assert("utf-8"@ =~= seq!['u', 't', 'f', '-', '8']);
    assert("utf8"@ =~= seq!['u', 't', 'f', '8']);
    assert("us-ascii"@ =~= seq!['u', 's', '-', 'a', 's', 'c', 'i', 'i']);
    assert("ascii"@ =~= seq!['a', 's', 'c', 'i', 'i']);
    lemma_lowered_is(encoding, seq!['u', 't', 'f', '-', '8']);
    lemma_lowered_is(encoding, seq!['u', 't', 'f', '8']);
    lemma_lowered_is(encoding, seq!['u', 's', '-', 'a', 's', 'c', 'i', 'i']);
    lemma_lowered_is(encoding, seq!['a', 's', 'c', 'i', 'i']);
}

/// The declared encoding decides: a document that declares UTF-8 or ASCII, in
/// either quotes and in upper or lower case, is read on; one that declares any
/// other encoding is refused.
#[verifier::spinoff_prover]
#[verifier::rlimit(50)]
pub proof fn law_declared_encodings_decide(
    st: State,
    quote: char,
    encoding: Seq<char>,
    tail: Seq<char>,
    rest: Seq<u8>,
)
    requires
        document::ready(st),
        quote == '"' || quote == '\'',
        !encoding.contains(quote),
        ({
            let body = declaration_head() + seq![quote] + encoding + seq![quote] + tail;
            &&& document::without(body, seq!['?', '>'])
            &&& st.input == document::bytes("<?"@ + body + "?>"@) + rest
        }),
    ensures
        document::reply(st) matches Some((answer, after)) && document::moved(st, after, rest) && (
        if names_utf8(text::trim(encoding)) {
            answer == Ok::<EventView, Failure>(EventView::Declaration)
        } else {
            answer is Err
        }),
{
    let body = declaration_head() + seq![quote] + encoding + seq![quote] + tail;
    lemma_encoding(quote, encoding, tail);
    lemma_names_utf8(text::trim(encoding));
    lemma_instruction(st, body, rest);
    reveal_strlit("xml version=\"1.0\" encoding=");
    reveal_strlit("xml");
    let word = seq!['x', 'm', 'l'];
    assert(body =~= word + body.skip(3));
    lemma_first_word(word, body.skip(3));
    assert("xml"@ =~= word);
    lemma_lowered_is(word, word);
}

/// What begins with the word `xml`, in upper or lower case, and names no
/// encoding is the declaration; what begins with another word is an instruction
/// and reported as it is.
#[verifier::spinoff_prover]
#[verifier::rlimit(50)]
pub proof fn law_declarations_are_told_from_instructions(
    st: State,
    word: Seq<char>,
    tail: Seq<char>,
    rest: Seq<u8>,
)
    requires
        document::ready(st),
        word.len() > 0,
        forall|i: int| 0 <= i < word.len() ==> !text::is_white(#[trigger] word[i]),
        tail.len() > 0 ==> text::is_white(tail[0]),
        document::without(word + tail, seq!['?', '>']),
        st.input == document::bytes("<?"@ + (word + tail) + "?>"@) + rest,
    ensures
        document::reply(st) matches Some((answer, after)) && document::moved(st, after, rest) && (
        if same_but_case(word, seq!['x', 'm', 'l']) {
            document::without(
                markup::lowered(word + tail),
                seq!['e', 'n', 'c', 'o', 'd', 'i', 'n', 'g'],
            ) ==> answer == Ok::<EventView, Failure>(EventView::Declaration)
        } else {
            answer == Ok::<EventView, Failure>(EventView::Pi(word + tail))
        }),
{
    let body = word + tail;
    lemma_instruction(st, body, rest);
    lemma_first_word(word, tail);
    reveal_strlit("xml");
    reveal_strlit("encoding");
    assert("xml"@ =~= seq!['x', 'm', 'l']);
    assert("encoding"@ =~= seq!['e', 'n', 'c', 'o', 'd', 'i', 'n', 'g']);
    lemma_lowered_is(word, seq!['x', 'm', 'l']);
    let low = markup::lowered(body);
    if document::without(low, "encoding"@) {
        lemma_find_none(low, "encoding"@);
    }
}

/// White space in front is trimmed away.
proof fn lemma_trim_front(w: Seq<char>, s: Seq<char>)
    requires
        text::all_white(w),
        s.len() > 0,
        !text::is_white(s[0]),
    ensures
        text::trim_start(w + s) == s,
    decreases w.len(),
{
    if w.len() == 0 {
        assert(w + s =~= s);
    } else {
        assert(text::is_white(w[0]));
        let rest = w.skip(1);
        assert forall|k: int| 0 <= k < rest.len() implies text::is_white(#[trigger] rest[k]) by {
            assert(rest[k] == w[k + 1]);
        }
        lemma_trim_front(rest, s);
        assert((w + s).skip(1) =~= rest + s);
        assert((w + s)[0] == w[0]);
    }
}

/// White space behind is trimmed away.
proof fn lemma_trim_back(s: Seq<char>, w: Seq<char>)
    requires
        text::all_white(w),
        s.len() > 0,
        !text::is_white(s.last()),
    ensures
        text::trim_end(s + w) == s,
    decreases w.len(),
{
    if w.len() == 0 {
        assert(s + w =~= s);
    } else {
        assert(text::is_white(w[w.len() - 1]));
        let rest = w.drop_last();
        assert forall|k: int| 0 <= k < rest.len() implies text::is_white(#[trigger] rest[k]) by {
            assert(rest[k] == w[k]);
        }
        lemma_trim_back(s, rest);
        assert((s + w).drop_last() =~= s + rest);
        assert((s + w).last() == w[w.len() - 1]);
    }
}

/// White space holds no mark.
proof fn lemma_white_is_plain(w: Seq<char>)
    requires
        text::all_white(w),
    ensures
        forall|i: int|
            0 <= i < w.len() ==> (#[trigger] w[i]) != '>' && w[i] != '"' && w[i] != '\'' && w[i]
                != '=' && w[i] != '/',
{
    assert forall|i: int| 0 <= i < w.len() implies (#[trigger] w[i]) != '>' && w[i] != '"' && w[i]
        != '\'' && w[i] != '=' && w[i] != '/' by {
        assert(text::is_white(w[i]));
    }
}

/// A quoted value is passed over.
proof fn lemma_value_passed(input: Seq<u8>, i: int, n: int, q: u8)
    requires
        0 <= i,
        0 <= n,
        i + n < input.len(),
        forall|k: int| i <= k < i + n ==> (#[trigger] input[k]) != q,
        input[i + n] == q,
    ensures
        markup::tag_end(input, i, Some(q)) == markup::tag_end(input, i + n + 1, None),
    decreases n,
{
    if n > 0 {
        assert(input[i] != q);
        lemma_value_passed(input, i + 1, n - 1, q);
    }
}

/// An attribute in the quotes that a writer chose, with space around.
pub open spec fn quoted_text(
    key: Seq<char>,
    value: Seq<char>,
    quote: char,
    before: Seq<char>,
    behind: Seq<char>,
) -> Seq<char> {
    key + before + seq!['='] + behind + seq![quote] + value + seq![quote]
}

/// A value that can stand between the quotes as it is.
pub open spec fn can_be_quoted(value: Seq<char>, quote: char) -> bool {
    &&& quote == '"' || quote == '\''
    &&& forall|i: int|
        0 <= i < value.len() ==> (#[trigger] value[i]) != quote && value[i] != '<' && value[i]
            != '&'
}

/// One attribute is read, and what is behind it left.
#[verifier::spinoff_prover]
#[verifier::rlimit(40)]
proof fn lemma_attribute(
    key: Seq<char>,
    value: Seq<char>,
    quote: char,
    before: Seq<char>,
    behind: Seq<char>,
    element: Seq<char>,
    lenient: bool,
)
    requires
        document::is_name(key),
        can_be_quoted(value, quote),
        text::all_white(before),
        text::all_white(behind),
    ensures
        markup::attributes(
            quoted_text(key, value, quote, before, behind),
            element,
            lenient,
            seq![],
        ) == Ok::<Seq<(Seq<char>, Seq<char>)>, Seq<char>>(seq![(key, value)]),
{
    let rest = quoted_text(key, value, quote, before, behind);
    let n = (key.len() + before.len()) as int;
    let equals = text::equal_to('=');
    document::lemma_name(key);
    lemma_white_is_plain(before);
    assert forall|k: int| 0 <= k < n implies !equals(#[trigger] rest[k]) by {
        if k < key.len() {
            assert(rest[k] == key[k]);
        } else {
            assert(rest[k] == before[k - key.len()]);
        }
    }
    assert(rest[n] == '=');
    text::lemma_first_where(rest, equals, n);
    assert(rest.take(n) =~= key + before);
    let last = key[key.len() - 1];
    assert(!text::is_white(last));
    assert(!text::is_white(key[0]));
    assert((key + before)[0] == key[0]);
    assert(text::trim_start(key + before) == key + before);
    lemma_trim_back(key, before);
    let s = seq![quote] + value + seq![quote];
    assert(rest.skip(n + 1) =~= behind + s);
    lemma_trim_front(behind, s);
    let inner = s.skip(1);
    let m = value.len() as int;
    let is_quote = text::equal_to(quote);
    assert(s[0] == quote);
    assert(markup::quote_mark()(quote));
    assert forall|k: int| 0 <= k < m implies !is_quote(#[trigger] inner[k]) by {
        assert(inner[k] == value[k]);
    }
    assert(inner[m] == quote);
    text::lemma_first_where(inner, is_quote, m);
    assert(inner.take(m) =~= value);
    assert(!value.contains('<'));
    assert(!value.contains('&'));
    entity::law_plain_text_is_unchanged(value, lenient);
    let none = Seq::<(Seq<char>, Seq<char>)>::empty();
    assert(!markup::has_key(none, key));
    assert(inner.skip(m + 1) =~= Seq::<char>::empty());
    let tail = text::trim_start(inner.skip(m + 1));
    assert(tail.len() == 0);
    let one = none.push((key, value));
    assert(markup::attributes(tail, element, lenient, one) == Ok::<
        Seq<(Seq<char>, Seq<char>)>,
        Seq<char>,
    >(one));
    assert(one =~= seq![(key, value)]);
}

/// The body of a start tag with one attribute is read.
proof fn lemma_quoted_tag(
    name: Seq<char>,
    attribute: Seq<char>,
    key: Seq<char>,
    value: Seq<char>,
    behind: Seq<char>,
    lenient: bool,
)
    requires
        document::is_name(name),
        document::is_name(key),
        attribute.len() > 0,
        attribute[0] == key[0],
        attribute.last() == '"' || attribute.last() == '\'',
        text::all_white(behind),
        markup::attributes(attribute, name, lenient, seq![]) == Ok::<
            Seq<(Seq<char>, Seq<char>)>,
            Seq<char>,
        >(seq![(key, value)]),
    ensures
        markup::tag_content(name + seq![' '] + attribute + behind, lenient) == Ok::<
            (Seq<char>, Seq<(Seq<char>, Seq<char>)>),
            Seq<char>,
        >((name, seq![(key, value)])),
{
    let inner = name + seq![' '] + attribute;
    let body = inner + behind;
    let n = name.len() as int;
    let white = |c: char| text::is_white(c);
    document::lemma_name(name);
    assert(!text::is_white(name[0]));
    assert(body[0] == name[0]);
    assert(text::trim_start(body) == body);
    assert(inner.last() == attribute.last());
    lemma_trim_back(inner, behind);
    assert forall|k: int| 0 <= k < n implies !white(#[trigger] inner[k]) by {
        assert(inner[k] == name[k]);
    }
    assert(inner[n] == ' ');
    text::lemma_first_where(inner, white, n);
    assert(inner.take(n) =~= name);
    assert(inner.skip(n) =~= seq![' '] + attribute);
    assert(!text::is_white(key[0]));
    lemma_trim_front(seq![' '], attribute);
}

/// Either quotes serve, with space around the `=` and before the end: the
/// value is what stands between them, and may hold a `>` and the other quotes.
#[verifier::spinoff_prover]
#[verifier::rlimit(40)]
pub proof fn law_either_quotes_serve(
    st: State,
    name: Seq<char>,
    key: Seq<char>,
    value: Seq<char>,
    quote: char,
    before: Seq<char>,
    behind: Seq<char>,
    at_end: Seq<char>,
    rest: Seq<u8>,
)
    requires
        document::ready(st),
        document::is_name(name),
        document::is_name(key),
        can_be_quoted(value, quote),
        text::all_white(before),
        text::all_white(behind),
        text::all_white(at_end),
        st.input == document::bytes(
            seq!['<'] + name + seq![' '] + quoted_text(key, value, quote, before, behind) + at_end
                + seq!['>'],
        ) + rest,
    ensures
        document::reply(st) matches Some((answer, after)) && answer == Ok::<EventView, Failure>(
            EventView::Start { name, attributes: seq![(key, value)] },
        ) && after.input == rest && after.stack == st.stack.push(name) && after.pending is None,
{
    let a = quoted_text(key, value, quote, before, behind);
    let raw = name + seq![' '] + a + at_end;
    let head = name + seq![' '] + (key + before + seq!['='] + behind);
    let q = quote as u32 as u8;
    let input = st.input;
    let all = seq!['<'] + name + seq![' '] + a + at_end + seq!['>'];
    document::lemma_name(name);
    document::lemma_name(key);
    lemma_white_is_plain(before);
    lemma_white_is_plain(behind);
    lemma_white_is_plain(at_end);
    assert(raw =~= head + (seq![quote] + (value + (seq![quote] + at_end))));
    assert(all =~= seq!['<'] + (raw + seq!['>']));
    document::lemma_bytes_concat(seq!['<'], raw + seq!['>']);
    document::lemma_bytes_concat(raw, seq!['>']);
    document::lemma_bytes_concat(head, seq![quote] + (value + (seq![quote] + at_end)));
    document::lemma_bytes_concat(seq![quote], value + (seq![quote] + at_end));
    document::lemma_bytes_concat(value, seq![quote] + at_end);
    document::lemma_bytes_concat(seq![quote], at_end);
    document::lemma_bytes_concat(name, seq![' '] + (key + before + seq!['='] + behind));
    assert(head =~= name + (seq![' '] + (key + before + seq!['='] + behind)));
    document::lemma_ascii_text(seq!['<']);
    document::lemma_ascii_text(seq!['>']);
    document::lemma_ascii_text(seq![quote]);
    assert(document::bytes(seq!['<']) =~= seq![markup::LT]);
    assert(document::bytes(seq!['>']) =~= seq![markup::GT]);
    assert(document::bytes(seq![quote]) =~= seq![q]);
    let bh = document::bytes(head);
    let bv = document::bytes(value);
    let be = document::bytes(at_end);
    assert(input =~= seq![markup::LT] + (bh + (seq![q] + (bv + (seq![q] + be)))) + seq![markup::GT]
        + rest);
    let n = bh.len() as int;
    let m = bv.len() as int;
    let e = be.len() as int;
    assert forall|i: int| 0 <= i < head.len() implies (#[trigger] head[i]) != '>' && head[i] != '"'
        && head[i] != '\'' by {
        let k = i - name.len() - 1;
        if k < 0 {
            if i < name.len() {
                assert(head[i] == name[i]);
            }
        } else if k < key.len() {
            assert(head[i] == key[k]);
        } else if k < key.len() + before.len() {
            assert(head[i] == before[k - key.len()]);
        } else if k > key.len() + before.len() {
            assert(head[i] == behind[k - key.len() - before.len() - 1]);
        }
    }
    document::lemma_plain_bytes(head);
    document::lemma_plain_bytes(at_end);
    document::lemma_no_byte(value, quote);
    assert forall|k: int| 1 <= k < 1 + n implies (#[trigger] input[k]) != markup::GT && input[k]
        != markup::QUOT && input[k] != markup::APOS by {
        assert(input[k] == bh[k - 1]);
    }
    document::lemma_tag_end_plain(input, 1, n);
    assert(input[1 + n] == q);
    assert forall|k: int| 2 + n <= k < 2 + n + m implies (#[trigger] input[k]) != q by {
        assert(input[k] == bv[k - 2 - n]);
    }
    assert(input[2 + n + m] == q);
    lemma_value_passed(input, 2 + n, m, q);
    assert forall|k: int| 3 + n + m <= k < 3 + n + m + e implies (#[trigger] input[k]) != markup::GT
        && input[k] != markup::QUOT && input[k] != markup::APOS by {
        assert(input[k] == be[k - 3 - n - m]);
    }
    document::lemma_tag_end_plain(input, 3 + n + m, e);
    let end = 3 + n + m + e;
    assert(input[end] == markup::GT);
    assert(markup::tag_end(input, 1, None) == Some(end));
    assert(input.subrange(1, end) =~= document::bytes(raw));
    assert(input.skip(end + 1) =~= rest);
    document::lemma_utf8(raw);
    assert(input[0] == markup::LT);
    assert(input[1] == bh[0]);
    assert(bh[0] == document::bytes(name)[0]);
    assert(raw.last() == (if at_end.len() > 0 {
        at_end[at_end.len() - 1]
    } else {
        quote
    }));
    assert(raw.last() != '/');
    lemma_attribute(key, value, quote, before, behind, name, st.lenient);
    assert(a[0] == key[0] && a.last() == quote);
    lemma_quoted_tag(name, a, key, value, at_end, st.lenient);
    lemma_start_replied(st, end, raw, name, seq![(key, value)]);
}

/// A start tag whose body is read.
#[verifier::spinoff_prover]
#[verifier::rlimit(50)]
proof fn lemma_start_replied(
    st: State,
    end: int,
    raw: Seq<char>,
    name: Seq<char>,
    attributes: Seq<(Seq<char>, Seq<char>)>,
)
    requires
        document::ready(st),
        st.input.len() >= 2,
        st.input[0] == markup::LT,
        st.input[1] != markup::BANG,
        st.input[1] != markup::QUESTION,
        st.input[1] != markup::SLASH,
        markup::tag_end(st.input, 1, None) == Some(end),
        markup::utf8_text(st.input.subrange(1, end)) == Ok::<Seq<char>, Seq<char>>(raw),
        raw.len() > 0,
        raw.last() != '/',
        markup::tag_content(raw, st.lenient) == Ok::<
            (Seq<char>, Seq<(Seq<char>, Seq<char>)>),
            Seq<char>,
        >((name, attributes)),
    ensures
        document::reply(st) matches Some((answer, after)) && answer == Ok::<EventView, Failure>(
            EventView::Start { name, attributes },
        ) && after.input == st.input.skip(end + 1) && after.stack == st.stack.push(name)
            && after.pending is None,
{
    reveal(document::reply);
    assert(State { seen_content: true, ..st } =~= st);
}

} // verus!
