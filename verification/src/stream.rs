//! What holds of every run of the parser, whatever the chunks are in which
//! its input arrives.

use vstd::prelude::*;

use crate::markup;
use crate::markup::{EventView, Reply, Section, State};

verus! {

/// The state when `more` bytes are at hand, and perhaps none will follow.
pub open spec fn grown(st: State, more: Seq<u8>, closed: bool) -> State {
    State { input: st.input + more, closed, ..st }
}

/// A run ends with a failure or with the end of the input.
pub open spec fn is_last(reply: Reply) -> bool {
    reply is Err || reply == Ok::<EventView, markup::Failure>(EventView::Eof)
}

/// Bytes left to read, with a pending end counted as half a byte.
pub open spec fn work(st: State) -> nat {
    2 * st.input.len() + if st.pending is Some {
        1nat
    } else {
        0nat
    }
}

/// All replies of a parser over a complete input, up to the last.
pub open spec fn run(st: State) -> Seq<Reply>
    decreases work(st),
{
    match markup::next(st) {
        None => seq![],
        Some((reply, after)) => if is_last(reply) {
            seq![reply]
        } else {
            proof {
                lemma_work(st);
            }
            seq![reply] + run(after)
        },
    }
}

/// All replies of a parser that is fed `chunks`, each when the bytes before
/// it are used up, and then told that the input is complete.
pub open spec fn drive(st: State, chunks: Seq<Seq<u8>>) -> Seq<Reply>
    decreases chunks.len(), work(st),
{
    match markup::next(st) {
        None => if chunks.len() == 0 {
            run(State { closed: true, ..st })
        } else {
            drive(st.with_more(chunks[0]), chunks.drop_first())
        },
        Some((reply, after)) => if is_last(reply) {
            seq![reply]
        } else {
            proof {
                lemma_work(st);
            }
            seq![reply] + drive(after, chunks)
        },
    }
}

/// An occurrence that `find` reports is one.
pub proof fn lemma_find<T>(s: Seq<T>, needle: Seq<T>)
    ensures
        markup::find(s, needle) matches Some(i) ==> 0 <= i && i + needle.len() <= s.len()
            && s.subrange(i, i + needle.len()) == needle,
    decreases s.len(),
{
    if s.len() < needle.len() {
    } else if s.take(needle.len() as int) == needle {
        assert(s.subrange(0, needle.len() as int) =~= s.take(needle.len() as int));
    } else if s.len() > 0 {
        lemma_find(s.skip(1), needle);
        if let Some(i) = markup::find(s.skip(1), needle) {
            assert(s.subrange(i + 1, i + 1 + needle.len()) =~= s.skip(1).subrange(
                i,
                i + needle.len(),
            ));
        }
    }
}

/// A first occurrence stays first when more follows.
proof fn lemma_find_grown<T>(s: Seq<T>, needle: Seq<T>, more: Seq<T>)
    requires
        markup::find(s, needle) is Some,
    ensures
        markup::find(s + more, needle) == markup::find(s, needle),
    decreases s.len(),
{
    let n = needle.len() as int;
    assert((s + more).take(n) =~= s.take(n));
    if s.take(n) != needle {
        assert((s + more).skip(1) =~= s.skip(1) + more);
        lemma_find_grown(s.skip(1), needle, more);
    }
}

/// The end of a start tag lies within the input and stays when more follows.
proof fn lemma_tag_end(input: Seq<u8>, i: int, quote: Option<u8>, more: Seq<u8>)
    requires
        0 <= i,
    ensures
        markup::tag_end(input, i, quote) matches Some(end) ==> i <= end < input.len()
            && markup::tag_end(input + more, i, quote) == Some(end),
    decreases input.len() - i,
{
    if i < input.len() {
        let b = input[i];
        assert((input + more)[i] == b);
        match quote {
            Some(q) => lemma_tag_end(
                input,
                i + 1,
                if b == q {
                    None
                } else {
                    quote
                },
                more,
            ),
            None => {
                lemma_tag_end(input, i + 1, Some(b), more);
                lemma_tag_end(input, i + 1, None, more);
            },
        }
    }
}

/// The end of a `DOCTYPE` lies within the input and stays when more follows.
proof fn lemma_doctype_end(input: Seq<u8>, i: int, depth: int, quote: Option<u8>, more: Seq<u8>)
    requires
        0 <= i,
    ensures
        markup::doctype_end(input, i, depth, quote) matches Some(end) ==> i <= end < input.len()
            && markup::doctype_end(input + more, i, depth, quote) == Some(end),
    decreases input.len() - i,
{
    if i < input.len() {
        let b = input[i];
        assert((input + more)[i] == b);
        match quote {
            Some(q) => lemma_doctype_end(
                input,
                i + 1,
                depth,
                if b == q {
                    None
                } else {
                    quote
                },
                more,
            ),
            None => {
                lemma_doctype_end(input, i + 1, depth, Some(b), more);
                lemma_doctype_end(input, i + 1, depth, None, more);
                lemma_doctype_end(input, i + 1, depth + 1, None, more);
                lemma_doctype_end(input, i + 1, depth - 1, None, more);
            },
        }
    }
}

/// Line feeds add up.
pub proof fn lemma_newlines(a: Seq<u8>, b: Seq<u8>)
    ensures
        markup::newlines(a + b) == markup::newlines(a) + markup::newlines(b),
        0 <= markup::newlines(b) <= b.len(),
    decreases b.len(),
{
    if b.len() == 0 {
        assert(a + b =~= a);
    } else {
        assert((a + b).drop_last() =~= a + b.drop_last());
        lemma_newlines(a, b.drop_last());
    }
}

/// Consuming in two steps is consuming at once.
proof fn lemma_advance(st: State, a: int, b: int)
    requires
        0 <= a,
        0 <= b,
        a + b <= st.input.len(),
    ensures
        st.advance(a).advance(b) == st.advance(a + b),
{
    assert(st.input.skip(a).skip(b) =~= st.input.skip(a + b));
    assert(st.input.take(a) + st.input.skip(a).take(b) =~= st.input.take(a + b));
    lemma_newlines(st.input.take(a), st.input.skip(a).take(b));
    assert(st.advance(a).advance(b) =~= st.advance(a + b));
}

/// Consuming does not mind what follows.
proof fn lemma_advance_grown(st: State, n: int, more: Seq<u8>, closed: bool)
    requires
        0 <= n <= st.input.len(),
    ensures
        grown(st, more, closed).advance(n) == grown(st.advance(n), more, closed),
{
    assert((st.input + more).skip(n) =~= st.input.skip(n) + more);
    assert((st.input + more).take(n) =~= st.input.take(n));
    assert(grown(st, more, closed).advance(n) =~= grown(st.advance(n), more, closed));
}

/// `after` is `st` with some bytes consumed, as far as the input goes.
pub open spec fn reads_on(st: State, after: State) -> bool {
    let n = after.offset - st.offset;
    &&& 0 <= n <= st.input.len()
    &&& after.input == st.input.skip(n)
    &&& after.line == st.line + markup::newlines(st.input.take(n))
    &&& after.closed == st.closed
    &&& after.lenient == st.lenient
}

/// What `section` leaves.
proof fn lemma_section(st: State, intro: int, close: Seq<u8>, missing: Seq<char>)
    requires
        0 <= intro <= st.input.len(),
    ensures
        match markup::section(st, intro, close, missing) {
            Section::Open => !st.closed,
            Section::Broken(_, at) => at == st.advance(intro) && reads_on(st, at),
            Section::Body(_, rest) => intro + close.len() <= st.input.len() && exists|n: int|
                intro + close.len() <= n <= st.input.len() && rest == #[trigger] st.advance(n),
        },
{
    let inner = st.advance(intro);
    lemma_find(inner.input, close);
    if let Some(end) = markup::find(inner.input, close) {
        lemma_advance(st, intro, end + close.len());
        assert(st.advance(intro).advance(end + close.len()) == st.advance(
            intro + (end + close.len()),
        ));
    }
}

proof fn lemma_section_grown(
    st: State,
    intro: int,
    close: Seq<u8>,
    missing: Seq<char>,
    more: Seq<u8>,
    closed: bool,
)
    requires
        !st.closed,
        0 <= intro <= st.input.len(),
    ensures
        match markup::section(st, intro, close, missing) {
            Section::Open => true,
            Section::Broken(m, at) => markup::section(
                grown(st, more, closed),
                intro,
                close,
                missing,
            ) == Section::Broken(m, grown(at, more, closed)),
            Section::Body(b, rest) => markup::section(
                grown(st, more, closed),
                intro,
                close,
                missing,
            ) == Section::Body(b, grown(rest, more, closed)),
        },
{
    let inner = st.advance(intro);
    lemma_advance_grown(st, intro, more, closed);
    lemma_find(inner.input, close);
    if let Some(end) = markup::find(inner.input, close) {
        lemma_find_grown(inner.input, close, more);
        assert((inner.input + more).take(end) =~= inner.input.take(end));
        lemma_advance_grown(inner, end + close.len(), more, closed);
    }
}

/// A decided reply stays what it is when more bytes arrive.
pub proof fn law_more_input_keeps_a_decided_reply(st: State, more: Seq<u8>, closed: bool)
    requires
        !st.closed,
        markup::next(st) is Some,
    ensures
        markup::next(st) matches Some((reply, after)) ==> markup::next(grown(st, more, closed)) == Some(
            (reply, grown(after, more, closed)),
        ),
{
    if st.pending is None && !st.finished {
        if st.seen_content {
            lemma_token_grown(st, more, closed);
        } else {
            lemma_first_token_grown(st, more, closed);
        }
    }
}

#[verifier::spinoff_prover]
proof fn lemma_first_token_grown(st: State, more: Seq<u8>, closed: bool)
    requires
        !st.closed,
        markup::first_token(st) is Some,
    ensures
        markup::first_token(st) matches Some((reply, after)) ==> markup::first_token(
            grown(st, more, closed),
        ) == Some((reply, grown(after, more, closed))),
{
    lemma_looking_at_grown(st, 0, markup::utf8_mark(), more, closed);
    if st.looking_at(0, markup::utf8_mark()) == Some(true) {
        lemma_advance_grown(st, 3, more, closed);
        lemma_token_grown(st.advance(3), more, closed);
    } else {
        lemma_looking_at_grown(st, 0, markup::utf16_le_mark(), more, closed);
        if st.looking_at(0, markup::utf16_le_mark()) == Some(false) {
            lemma_looking_at_grown(st, 0, markup::utf16_be_mark(), more, closed);
            if st.looking_at(0, markup::utf16_be_mark()) == Some(false) {
                lemma_token_grown(st, more, closed);
            }
        }
    }
}

proof fn lemma_looking_at_grown(
    st: State,
    at: int,
    literal: Seq<u8>,
    more: Seq<u8>,
    closed: bool,
)
    requires
        !st.closed,
        0 <= at,
        st.looking_at(at, literal) is Some,
    ensures
        grown(st, more, closed).looking_at(at, literal) == st.looking_at(at, literal),
{
    assert((st.input + more).subrange(at, at + literal.len()) =~= st.input.subrange(
        at,
        at + literal.len(),
    ));
}

proof fn lemma_token_grown(st: State, more: Seq<u8>, closed: bool)
    requires
        !st.closed,
        markup::token(st) is Some,
    ensures
        markup::token(st) matches Some((reply, after)) ==> markup::token(grown(st, more, closed)) == Some(
            (reply, grown(after, more, closed)),
        ),
{
    let seen = State { seen_content: true, ..st };
    assert(grown(seen, more, closed) =~= State { seen_content: true, ..grown(st, more, closed) });
    assert((st.input + more)[0] == st.input[0]);
    if st.input[0] != markup::LT {
        lemma_find(seen.input, markup::lt());
        lemma_find_grown(seen.input, markup::lt(), more);
        let end = markup::find(seen.input, markup::lt())->0;
        assert((seen.input + more).take(end) =~= seen.input.take(end));
        lemma_advance_grown(seen, end, more, closed);
    } else {
        assert(st.input.len() >= 2);
        assert((st.input + more)[1] == st.input[1]);
        lemma_markup_grown(seen, more, closed);
    }
}

proof fn lemma_markup_grown(st: State, more: Seq<u8>, closed: bool)
    requires
        !st.closed,
        st.input.len() >= 2,
        markup::markup(st) is Some,
    ensures
        markup::markup(st) matches Some((reply, after)) ==> markup::markup(grown(st, more, closed)) == Some(
            (reply, grown(after, more, closed)),
        ),
{
    let g = grown(st, more, closed);
    assert(g.input[1] == st.input[1]);
    if st.input[1] == markup::BANG {
        lemma_declaration_grown(st, more, closed);
    } else if st.input[1] == markup::QUESTION {
        lemma_section_grown(
            st,
            2,
            markup::pi_close(),
            "unterminated processing instruction (missing '?>')"@,
            more,
            closed,
        );
    } else if st.input[1] == markup::SLASH {
        lemma_section_grown(
            st,
            2,
            markup::gt(),
            "unterminated closing tag (missing '>')"@,
            more,
            closed,
        );
    } else {
        lemma_tag_end(st.input, 1, None, more);
        let end = markup::tag_end(st.input, 1, None)->0;
        assert(g.input.subrange(1, end) =~= st.input.subrange(1, end));
        lemma_advance_grown(st, 1, more, closed);
        lemma_advance_grown(st, end + 1, more, closed);
    }
}

proof fn lemma_declaration_grown(st: State, more: Seq<u8>, closed: bool)
    requires
        !st.closed,
        st.input.len() >= 2,
        markup::declaration(st) is Some,
    ensures
        markup::declaration(st) matches Some((reply, after)) ==> markup::declaration(grown(st, more, closed)) == Some(
            (reply, grown(after, more, closed)),
        ),
{
    lemma_looking_at_grown(st, 2, markup::comment_open(), more, closed);
    if st.looking_at(2, markup::comment_open()) == Some(true) {
        lemma_section_grown(
            st,
            4,
            markup::comment_close(),
            "unterminated comment (missing '-->')"@,
            more,
            closed,
        );
    } else {
        lemma_looking_at_grown(st, 2, markup::cdata_open(), more, closed);
        if st.looking_at(2, markup::cdata_open()) == Some(true) {
            lemma_section_grown(
                st,
                9,
                markup::cdata_close(),
                "unterminated CDATA section (missing ']]>')"@,
                more,
                closed,
            );
        } else {
            lemma_looking_at_grown(st, 2, markup::doctype_upper(), more, closed);
            lemma_advance_grown(st, 2, more, closed);
            let inner = st.advance(2);
            lemma_doctype_end(inner.input, 0, 0, None, more);
            if let Some(end) = markup::doctype_end(inner.input, 0, 0, None) {
                lemma_advance_grown(inner, end + 1, more, closed);
            }
            if st.looking_at(2, markup::doctype_upper()) == Some(false) {
                lemma_looking_at_grown(st, 2, markup::doctype_lower(), more, closed);
            }
        }
    }
}

/// Every reply but a last one leaves less to read.
pub proof fn lemma_work(st: State)
    ensures
        markup::next(st) matches Some((reply, after)) ==> !is_last(reply) ==> work(after) < work(st),
{
    if st.pending is None && !st.finished {
        if !st.seen_content && st.looking_at(0, markup::utf8_mark()) == Some(true) {
            lemma_token_work(st.advance(3));
        } else {
            lemma_token_work(st);
        }
    }
}

proof fn lemma_token_work(st: State)
    requires
        st.pending is None,
    ensures
        markup::token(st) matches Some((reply, after)) ==> !is_last(reply) ==> after.input.len()
            < st.input.len(),
{
    let seen = State { seen_content: true, ..st };
    if st.input.len() > 0 {
        if st.input[0] != markup::LT {
            lemma_find(seen.input, markup::lt());
            if let Some(end) = markup::find(seen.input, markup::lt()) {
                assert(seen.input.subrange(end, end + 1)[0] == seen.input[end]);
            }
        } else if st.input.len() >= 2 {
            lemma_markup_work(seen);
        }
    }
}

proof fn lemma_markup_work(st: State)
    requires
        st.input.len() >= 2,
        st.pending is None,
    ensures
        markup::markup(st) matches Some((reply, after)) ==> !is_last(reply) ==> after.input.len()
            < st.input.len(),
{
    lemma_section(
        st,
        2,
        markup::pi_close(),
        "unterminated processing instruction (missing '?>')"@,
    );
    lemma_section(st, 2, markup::gt(), "unterminated closing tag (missing '>')"@);
    lemma_tag_end(st.input, 1, None, seq![]);
    if st.input.len() >= 4 {
        lemma_section(st, 4, markup::comment_close(), "unterminated comment (missing '-->')"@);
    }
    if st.input.len() >= 9 {
        lemma_section(
            st,
            9,
            markup::cdata_close(),
            "unterminated CDATA section (missing ']]>')"@,
        );
    }
    lemma_doctype_end(st.advance(2).input, 0, 0, None, seq![]);
}

/// What one reply does to the state: it consumes a prefix of the input and
/// counts its lines; a start opens the element it names, an end closes the
/// innermost element, which is the one it names, and nothing else touches the
/// open elements; the end of the input is reported when no element is open
/// and one was seen, with all bytes consumed.
pub proof fn law_reply_effects(st: State)
    ensures
        markup::next(st) matches Some((reply, after)) ==> {
            &&& reads_on(st, after)
            &&& st.wf() ==> after.wf()
            &&& match reply {
                Ok(EventView::Start { name, .. }) => after.stack == st.stack.push(name),
                Ok(EventView::End { name }) => st.wf() ==> st.stack.len() > 0 && st.stack.last()
                    == name && after.stack == st.stack.drop_last(),
                Ok(EventView::Eof) => after.stack == st.stack && (st.wf() ==> after.stack.len()
                    == 0 && after.seen_element && after.finished && after.input.len() == 0),
                _ => after.stack == st.stack,
            }
        },
{
    if st.pending is Some {
        assert(st.input.skip(0) =~= st.input);
        assert(st.input.take(0) =~= seq![]);
    } else if st.finished {
        assert(st.input.skip(0) =~= st.input);
        assert(st.input.take(0) =~= seq![]);
    } else if !st.seen_content && st.looking_at(0, markup::utf8_mark()) == Some(true) {
        lemma_token_effects(st.advance(3));
        if let Some((reply, after)) = markup::token(st.advance(3)) {
            let n = after.offset - st.offset;
            lemma_advance(st, 3, n - 3);
            lemma_newlines(seq![], st.input.take(3));
        }
    } else {
        assert(st.input.skip(0) =~= st.input);
        assert(st.input.take(0) =~= seq![]);
        lemma_token_effects(st);
    }
}

/// The effects of one token.
spec fn token_effects(st: State, reply: Reply, after: State) -> bool {
    &&& reads_on(st, after)
    &&& st.wf() ==> after.wf()
    &&& match reply {
        Ok(EventView::Start { name, .. }) => after.stack == st.stack.push(name),
        Ok(EventView::End { name }) => st.stack.len() > 0 && st.stack.last() == name && after.stack
            == st.stack.drop_last(),
        Ok(EventView::Eof) => after.stack == st.stack && after.stack.len() == 0
            && after.seen_element && after.finished && after.input.len() == 0,
        _ => after.stack == st.stack,
    }
}

proof fn lemma_token_effects(st: State)
    requires
        st.pending is None,
        !st.finished,
    ensures
        markup::token(st) matches Some((reply, after)) ==> token_effects(st, reply, after),
{
    assert(st.input.skip(0) =~= st.input);
    assert(st.input.take(0) =~= seq![]);
    let seen = State { seen_content: true, ..st };
    lemma_newlines(seq![], st.input);
    if st.input.len() > 0 {
        if st.input[0] != markup::LT {
            lemma_find(seen.input, markup::lt());
            if let Some(end) = markup::find(seen.input, markup::lt()) {
                lemma_newlines(seq![], st.input.take(end));
            }
            assert(st.input.take(st.input.len() as int) =~= st.input);
        } else if st.input.len() >= 2 {
            lemma_markup_effects(seen);
        }
    }
}

proof fn lemma_markup_effects(st: State)
    requires
        st.pending is None,
        !st.finished,
        st.seen_content,
        st.input.len() >= 2,
    ensures
        markup::markup(st) matches Some((reply, after)) ==> token_effects(st, reply, after),
{
    lemma_whole(st);
    if st.input[1] == markup::BANG {
        if st.input.len() >= 4 {
            lemma_comment_effects(st);
        }
        if st.input.len() >= 9 {
            lemma_cdata_effects(st);
        }
        lemma_doctype_effects(st);
    } else if st.input[1] == markup::QUESTION {
        lemma_instruction_effects(st);
    } else if st.input[1] == markup::SLASH {
        lemma_end_tag_effects(st);
    } else {
        lemma_start_tag_effects(st);
    }
}

/// Nothing consumed is nothing lost, and consuming keeps a state well-formed.
proof fn lemma_whole(st: State)
    ensures
        reads_on(st, st),
        forall|n: int|
            0 <= n <= st.input.len() && st.wf() ==> (#[trigger] st.advance(n)).wf(),
{
    assert(st.input.skip(0) =~= st.input);
    assert(st.input.take(0) =~= seq![]);
    assert forall|n: int| 0 <= n <= st.input.len() && st.wf() implies (#[trigger] st.advance(
        n,
    )).wf() by {
        lemma_newlines(seq![], st.input.take(n));
    }
}

proof fn lemma_instruction_effects(st: State)
    requires
        st.pending is None,
        !st.finished,
        st.seen_content,
        st.input.len() >= 2,
    ensures
        markup::instruction(st) matches Some((reply, after)) ==> token_effects(st, reply, after),
{
    lemma_whole(st);
    lemma_section(
        st,
        2,
        markup::pi_close(),
        "unterminated processing instruction (missing '?>')"@,
    );
}

proof fn lemma_end_tag_effects(st: State)
    requires
        st.pending is None,
        !st.finished,
        st.seen_content,
        st.input.len() >= 2,
    ensures
        markup::end_tag(st) matches Some((reply, after)) ==> token_effects(st, reply, after),
{
    lemma_whole(st);
    lemma_section(st, 2, markup::gt(), "unterminated closing tag (missing '>')"@);
}

proof fn lemma_start_tag_effects(st: State)
    requires
        st.pending is None,
        !st.finished,
        st.seen_content,
        st.input.len() >= 2,
    ensures
        markup::start_tag(st) matches Some((reply, after)) ==> token_effects(st, reply, after),
{
    lemma_whole(st);
    lemma_tag_end(st.input, 1, None, seq![]);
}

proof fn lemma_comment_effects(st: State)
    requires
        st.pending is None,
        !st.finished,
        st.seen_content,
        st.input.len() >= 4,
    ensures
        markup::comment(st) matches Some((reply, after)) ==> token_effects(st, reply, after),
{
    lemma_whole(st);
    lemma_section(st, 4, markup::comment_close(), "unterminated comment (missing '-->')"@);
}

proof fn lemma_cdata_effects(st: State)
    requires
        st.pending is None,
        !st.finished,
        st.seen_content,
        st.input.len() >= 9,
    ensures
        markup::cdata(st) matches Some((reply, after)) ==> token_effects(st, reply, after),
{
    lemma_whole(st);
    lemma_section(
        st,
        9,
        markup::cdata_close(),
        "unterminated CDATA section (missing ']]>')"@,
    );
}

proof fn lemma_doctype_effects(st: State)
    requires
        st.pending is None,
        !st.finished,
        st.seen_content,
        st.input.len() >= 2,
    ensures
        markup::doctype(st) matches Some((reply, after)) ==> token_effects(st, reply, after),
{
    lemma_whole(st);
    lemma_doctype_end(st.advance(2).input, 0, 0, None, seq![]);
    if let Some(end) = markup::doctype_end(st.advance(2).input, 0, 0, None) {
        lemma_advance(st, 2, end + 1);
    }
}

/// Once the end of the input is reported, it is reported for ever.
pub proof fn law_the_end_is_final(st: State)
    requires
        st.wf(),
        markup::next(st) matches Some((reply, _)) && reply == Ok::<EventView, markup::Failure>(
            EventView::Eof,
        ),
    ensures
        markup::next(st) matches Some((reply, after)) && markup::next(after) == Some(
            (reply, after),
        ),
{
    law_reply_effects(st);
}

/// The open elements after a list of replies, when each end closes the
/// innermost element that is open.
pub open spec fn replay(replies: Seq<Reply>, open: Seq<Seq<char>>) -> Option<Seq<Seq<char>>>
    decreases replies.len(),
{
    if replies.len() == 0 {
        Some(open)
    } else {
        match replies[0] {
            Ok(EventView::Start { name, .. }) => replay(replies.drop_first(), open.push(name)),
            Ok(EventView::End { name }) => if open.len() > 0 && open.last() == name {
                replay(replies.drop_first(), open.drop_last())
            } else {
                None
            },
            _ => replay(replies.drop_first(), open),
        }
    }
}

/// One reply of a replay.
proof fn lemma_replay(reply: Reply, rest: Seq<Reply>, open: Seq<Seq<char>>, after: Seq<Seq<char>>)
    requires
        match reply {
            Ok(EventView::Start { name, .. }) => after == open.push(name),
            Ok(EventView::End { name }) => open.len() > 0 && open.last() == name && after
                == open.drop_last(),
            _ => after == open,
        },
    ensures
        replay(seq![reply] + rest, open) == replay(rest, after),
{
    assert((seq![reply] + rest).drop_first() =~= rest);
}

/// In every run each end tag closes the innermost open element, and a run
/// that reaches the end of the input leaves none open.
#[verifier::spinoff_prover]
#[verifier::rlimit(30)]
pub proof fn law_tags_are_balanced(st: State)
    requires
        st.wf(),
        st.closed,
    ensures
        run(st).len() > 0,
        is_last(run(st).last()),
        replay(run(st), st.stack) is Some,
        run(st).last() is Ok ==> replay(run(st), st.stack)->0.len() == 0,
    decreases work(st),
{
    markup::law_closed_input_decides(st);
    law_reply_effects(st);
    let (reply, after) = markup::next(st).unwrap();
    if is_last(reply) {
        lemma_replay(reply, seq![], st.stack, after.stack);
        assert(seq![reply] + seq![] =~= seq![reply]);
        assert(run(st) == seq![reply]);
    } else {
        lemma_work(st);
        law_tags_are_balanced(after);
        lemma_replay(reply, run(after), st.stack, after.stack);
        assert(run(st) == seq![reply] + run(after));
        assert(run(st).last() == run(after).last());
    }
}

/// The chunks in which a document arrives make no difference: a parser that
/// is fed chunk by chunk gives the replies of one that has it all at once.
pub proof fn law_chunks_make_no_difference(st: State, chunks: Seq<Seq<u8>>)
    requires
        !st.closed,
    ensures
        drive(st, chunks) == run(grown(st, chunks.flatten(), true)),
    decreases chunks.len(), work(st),
{
    let whole = grown(st, chunks.flatten(), true);
    match markup::next(st) {
        None => if chunks.len() == 0 {
            assert(chunks.flatten() =~= seq![]);
            assert(st.input + chunks.flatten() =~= st.input);
            assert(whole =~= State { closed: true, ..st });
        } else {
            let fed = st.with_more(chunks[0]);
            law_chunks_make_no_difference(fed, chunks.drop_first());
            assert(chunks.flatten() == chunks.first() + chunks.drop_first().flatten());
            assert(st.input + chunks.flatten() =~= fed.input + chunks.drop_first().flatten());
            assert(whole =~= grown(fed, chunks.drop_first().flatten(), true));
        },
        Some((reply, after)) => {
            law_more_input_keeps_a_decided_reply(st, chunks.flatten(), true);
            if !is_last(reply) {
                lemma_work(st);
                assert(after.closed == st.closed) by {
                    law_reply_effects(st);
                }
                law_chunks_make_no_difference(after, chunks);
            }
        },
    }
}

} // verus!
