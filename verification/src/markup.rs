//! What the pull parser reads: the input language, one event at a time.
//!
//! [`State`] is everything that decides the next event. [`next`] maps a state
//! to the next reply and the state behind it, or to `None` when the bytes at
//! hand do not decide the reply yet and more may come.

use vstd::prelude::*;

use crate::entity;
use crate::number;
use crate::text;

verus! {

pub const LF: u8 = 0x0a;

pub const BANG: u8 = 0x21;

pub const QUOT: u8 = 0x22;

pub const APOS: u8 = 0x27;

pub const DASH: u8 = 0x2d;

pub const SLASH: u8 = 0x2f;

pub const LT: u8 = 0x3c;

pub const GT: u8 = 0x3e;

pub const QUESTION: u8 = 0x3f;

pub const LBRACKET: u8 = 0x5b;

pub const RBRACKET: u8 = 0x5d;

/// `<`
pub open spec fn lt() -> Seq<u8> {
    seq![LT]
}

/// `>`
pub open spec fn gt() -> Seq<u8> {
    seq![GT]
}

/// `--`
pub open spec fn comment_open() -> Seq<u8> {
    seq![DASH, DASH]
}

/// `-->`
pub open spec fn comment_close() -> Seq<u8> {
    seq![DASH, DASH, GT]
}

/// `[CDATA[`
pub open spec fn cdata_open() -> Seq<u8> {
    seq![LBRACKET, 0x43u8, 0x44u8, 0x41u8, 0x54u8, 0x41u8, LBRACKET]
}

/// `]]>`
pub open spec fn cdata_close() -> Seq<u8> {
    seq![RBRACKET, RBRACKET, GT]
}

/// `?>`
pub open spec fn pi_close() -> Seq<u8> {
    seq![QUESTION, GT]
}

/// `DOCTYPE`
pub open spec fn doctype_upper() -> Seq<u8> {
    seq![0x44u8, 0x4fu8, 0x43u8, 0x54u8, 0x59u8, 0x50u8, 0x45u8]
}

/// `doctype`
pub open spec fn doctype_lower() -> Seq<u8> {
    seq![0x64u8, 0x6fu8, 0x63u8, 0x74u8, 0x79u8, 0x70u8, 0x65u8]
}

/// The UTF-8 byte-order mark.
pub open spec fn utf8_mark() -> Seq<u8> {
    seq![0xefu8, 0xbbu8, 0xbfu8]
}

/// The little-endian UTF-16 byte-order mark.
pub open spec fn utf16_le_mark() -> Seq<u8> {
    seq![0xffu8, 0xfeu8]
}

/// The big-endian UTF-16 byte-order mark.
pub open spec fn utf16_be_mark() -> Seq<u8> {
    seq![0xfeu8, 0xffu8]
}

/// One pull event, over character sequences.
#[verifier::ext_equal]
pub enum EventView {
    Declaration,
    Doctype,
    Comment(Seq<char>),
    Pi(Seq<char>),
    Start { name: Seq<char>, attributes: Seq<(Seq<char>, Seq<char>)> },
    End { name: Seq<char> },
    Text(Seq<char>),
    CData(Seq<char>),
    Eof,
}

/// A parse failure, with the line where it was detected.
#[verifier::ext_equal]
pub struct Failure {
    pub message: Seq<char>,
    pub line: int,
}

/// The answer to one pull.
pub type Reply = Result<EventView, Failure>;

/// Everything that decides the next event.
#[verifier::ext_equal]
pub struct State {
    /// The bytes at hand that are not consumed.
    pub input: Seq<u8>,
    /// True when no further bytes will come.
    pub closed: bool,
    /// Number of bytes consumed so far.
    pub offset: int,
    /// 1-based line of the first byte of `input`.
    pub line: int,
    /// Names of the open elements, outermost first.
    pub stack: Seq<Seq<char>>,
    /// A self-closing element whose end is still to be reported.
    pub pending: Option<Seq<char>>,
    /// True once a byte beyond a byte-order mark was looked at.
    pub seen_content: bool,
    /// True once an element was read.
    pub seen_element: bool,
    /// True once the end of the input was reported.
    pub finished: bool,
    /// Pass unknown named entities through.
    pub lenient: bool,
}

/// Number of line feeds in `bytes`.
pub open spec fn newlines(bytes: Seq<u8>) -> int
    decreases bytes.len(),
{
    if bytes.len() == 0 {
        0
    } else {
        newlines(bytes.drop_last()) + if bytes.last() == LF {
            1int
        } else {
            0int
        }
    }
}

/// Index of the first occurrence of `needle` in `s`.
pub open spec fn find<T>(s: Seq<T>, needle: Seq<T>) -> Option<int>
    decreases s.len(),
{
    if s.len() < needle.len() {
        None
    } else if s.take(needle.len() as int) == needle {
        Some(0)
    } else if s.len() == 0 {
        None
    } else {
        match find(s.skip(1), needle) {
            Some(i) => Some(i + 1),
            None => None,
        }
    }
}

/// How the standard library words the first defect of bytes that are not
/// UTF-8: the text of the error of `std::str::from_utf8`.
pub uninterp spec fn utf8_defect(bytes: Seq<u8>) -> Seq<char>;

/// The text that `bytes` encode, or the message that they encode none.
pub open spec fn utf8_text(bytes: Seq<u8>) -> Result<Seq<char>, Seq<char>> {
    if vstd::utf8::valid_utf8(bytes) {
        Ok(vstd::utf8::decode_utf8(bytes))
    } else {
        Err(
            "invalid UTF-8 in input ("@ + utf8_defect(bytes)
                + "); only UTF-8 documents are supported"@,
        )
    }
}

impl State {
    /// The state with the first `n` bytes consumed.
    pub open spec fn advance(self, n: int) -> State {
        State {
            input: self.input.skip(n),
            offset: self.offset + n,
            line: self.line + newlines(self.input.take(n)),
            ..self
        }
    }

    /// A failure at the current line, which leaves the state as it is.
    pub open spec fn fail(self, message: Seq<char>) -> Option<(Reply, State)> {
        Some((Err(Failure { message, line: self.line }), self))
    }

    /// A failure for want of input, unless more may come.
    pub open spec fn starve(self, message: Seq<char>) -> Option<(Reply, State)> {
        if self.closed {
            self.fail(message)
        } else {
            None
        }
    }

    /// True when the bytes at `at` are `literal`; `None` when that is open.
    pub open spec fn looking_at(self, at: int, literal: Seq<u8>) -> Option<bool> {
        if at + literal.len() <= self.input.len() {
            Some(self.input.subrange(at, at + literal.len()) == literal)
        } else if self.closed {
            Some(false)
        } else {
            None
        }
    }

    /// The state when `more` bytes are at hand.
    pub open spec fn with_more(self, more: Seq<u8>) -> State {
        State { input: self.input + more, ..self }
    }

    /// What every reachable state satisfies: lines are counted from one and
    /// no faster than bytes, a pending end is that of the innermost element,
    /// and the end of the input is reported when all of it is consumed.
    pub open spec fn wf(self) -> bool {
        &&& self.offset >= 0
        &&& 1 <= self.line <= self.offset + 1
        &&& self.pending matches Some(name) ==> self.stack.len() > 0 && self.stack.last() == name
        &&& self.finished ==> self.stack.len() == 0 && self.pending is None && self.seen_element
            && self.input.len() == 0 && self.closed
        &&& self.stack.len() > 0 ==> self.seen_element
        &&& self.seen_element ==> self.seen_content
    }
}

/// A stretch of text up to a closing mark.
pub enum Section {
    /// The closing mark may still come.
    Open,
    /// There is no such stretch: the failure and the state it leaves.
    Broken(Seq<char>, State),
    /// The text, and the state behind the closing mark.
    Body(Seq<char>, State),
}

/// The text behind an opening mark of `intro` bytes, up to `close`.
pub open spec fn section(st: State, intro: int, close: Seq<u8>, missing: Seq<char>) -> Section {
    let inner = st.advance(intro);
    match find(inner.input, close) {
        None => if st.closed {
            Section::Broken(missing, inner)
        } else {
            Section::Open
        },
        Some(end) => match utf8_text(inner.input.take(end)) {
            Ok(body) => Section::Body(body, inner.advance(end + close.len())),
            Err(message) => Section::Broken(message, inner),
        },
    }
}

/// `<!-- ... -->`
pub open spec fn comment(st: State) -> Option<(Reply, State)> {
    match section(
        st,
        4,
        comment_close(),
        "unterminated comment (missing '-->')"@,
    ) {
        Section::Open => None,
        Section::Broken(message, at) => at.fail(message),
        Section::Body(body, rest) => Some((Ok(EventView::Comment(body)), rest)),
    }
}

/// `<![CDATA[ ... ]]>`
pub open spec fn cdata(st: State) -> Option<(Reply, State)> {
    match section(
        st,
        9,
        cdata_close(),
        "unterminated CDATA section (missing ']]>')"@,
    ) {
        Section::Open => None,
        Section::Broken(message, at) => at.fail(message),
        Section::Body(body, rest) => Some((Ok(EventView::CData(body)), rest)),
    }
}

/// Index of the `>` that ends a `DOCTYPE` declaration, honoring quotes and
/// the brackets of an internal subset.
pub open spec fn doctype_end(input: Seq<u8>, i: int, depth: int, quote: Option<u8>) -> Option<int>
    decreases input.len() - i,
{
    if i < 0 || i >= input.len() {
        None
    } else {
        let b = input[i];
        match quote {
            Some(q) => doctype_end(
                input,
                i + 1,
                depth,
                if b == q {
                    None
                } else {
                    quote
                },
            ),
            None => if b == QUOT || b == APOS {
                doctype_end(input, i + 1, depth, Some(b))
            } else if b == LBRACKET || b == LT {
                doctype_end(input, i + 1, depth + 1, None)
            } else if b == RBRACKET {
                doctype_end(input, i + 1, depth - 1, None)
            } else if b == GT && depth <= 0 {
                Some(i)
            } else if b == GT {
                doctype_end(input, i + 1, depth - 1, None)
            } else {
                doctype_end(input, i + 1, depth, None)
            },
        }
    }
}

/// `<!DOCTYPE ... >`
pub open spec fn doctype(st: State) -> Option<(Reply, State)> {
    let inner = st.advance(2);
    match doctype_end(inner.input, 0, 0, None) {
        None => inner.starve("unterminated DOCTYPE declaration"@),
        Some(end) => Some((Ok(EventView::Doctype), inner.advance(end + 1))),
    }
}

/// `c` with an ASCII letter in lower case.
pub open spec fn lower(c: char) -> char {
    if 'A' <= c <= 'Z' {
        (c as int + 32) as char
    } else {
        c
    }
}

/// `s` with its ASCII letters in lower case.
pub open spec fn lowered(s: Seq<char>) -> Seq<char> {
    s.map_values(|c: char| lower(c))
}

/// The first word of `s`.
pub open spec fn first_word(s: Seq<char>) -> Seq<char> {
    let t = text::trim_start(s);
    match text::index_of_white(t) {
        Some(n) => t.take(n),
        None => t,
    }
}

/// The predicate of being a quotation mark.
pub open spec fn quote_mark() -> spec_fn(char) -> bool {
    |c: char| c == '"' || c == '\''
}

/// The encoding that a declaration names, in lower case.
pub open spec fn declared_encoding(declaration: Seq<char>) -> Option<Seq<char>> {
    let low = lowered(declaration);
    match find(low, "encoding"@) {
        None => None,
        Some(at) => {
            let tail = low.skip(at + "encoding"@.len());
            match text::first_where(tail, quote_mark()) {
                None => None,
                Some(q) => match text::index_of(tail.skip(q + 1), tail[q]) {
                    None => None,
                    Some(end) => Some(text::trim(tail.skip(q + 1).take(end))),
                },
            }
        },
    }
}

/// The encodings whose documents are UTF-8 documents.
pub open spec fn is_utf8_name(encoding: Seq<char>) -> bool {
    encoding == "utf-8"@ || encoding == "utf8"@ || encoding == "us-ascii"@ || encoding == "ascii"@
}

/// The message for an encoding that is not read.
pub open spec fn encoding_message(encoding: Seq<char>) -> Seq<char> {
    "declared encoding '"@ + encoding + "' is not supported; re-encode the document to UTF-8"@
}

/// `<? ... ?>`: the XML declaration or another processing instruction.
pub open spec fn instruction(st: State) -> Option<(Reply, State)> {
    match section(
        st,
        2,
        pi_close(),
        "unterminated processing instruction (missing '?>')"@,
    ) {
        Section::Open => None,
        Section::Broken(message, at) => at.fail(message),
        Section::Body(body, rest) => if lowered(first_word(body)) == "xml"@ {
            match declared_encoding(body) {
                Some(encoding) if !is_utf8_name(encoding) => rest.fail(encoding_message(encoding)),
                _ => Some((Ok(EventView::Declaration), rest)),
            }
        } else {
            Some((Ok(EventView::Pi(body)), rest))
        },
    }
}

/// `</ ... >`
pub open spec fn end_tag(st: State) -> Option<(Reply, State)> {
    match section(st, 2, gt(), "unterminated closing tag (missing '>')"@) {
        Section::Open => None,
        Section::Broken(message, at) => at.fail(message),
        Section::Body(body, rest) => {
            let name = text::trim(body);
            if name.len() == 0 {
                rest.fail("closing tag with empty name"@)
            } else if rest.stack.len() == 0 {
                rest.fail("closing tag </"@ + name + "> with no element open"@)
            } else if rest.stack.last() != name {
                rest.fail(
                    "mismatched closing tag: expected </"@ + rest.stack.last() + ">, found </"@
                        + name + ">"@,
                )
            } else {
                Some((Ok(EventView::End { name }), State { stack: rest.stack.drop_last(), ..rest }))
            }
        },
    }
}

/// Index of the `>` that ends a start tag, honoring quoted values.
pub open spec fn tag_end(input: Seq<u8>, i: int, quote: Option<u8>) -> Option<int>
    decreases input.len() - i,
{
    if i < 0 || i >= input.len() {
        None
    } else {
        let b = input[i];
        match quote {
            Some(q) => tag_end(
                input,
                i + 1,
                if b == q {
                    None
                } else {
                    quote
                },
            ),
            None => if b == GT {
                Some(i)
            } else if b == QUOT || b == APOS {
                tag_end(input, i + 1, Some(b))
            } else {
                tag_end(input, i + 1, None)
            },
        }
    }
}

/// True when `key` is among the names of `attributes`.
pub open spec fn has_key(attributes: Seq<(Seq<char>, Seq<char>)>, key: Seq<char>) -> bool {
    exists|i: int| 0 <= i < attributes.len() && (#[trigger] attributes[i]).0 == key
}

/// An attribute name: not empty, without white space and quotation marks.
pub open spec fn is_attribute_name(key: Seq<char>) -> bool {
    key.len() > 0 && text::index_of_white(key) is None && !key.contains('"') && !key.contains('\'')
}

/// The attributes in `rest`, behind those in `done`: `key="value"` pairs with
/// decoded values, or the message of the first defect.
pub open spec fn attributes(
    rest: Seq<char>,
    element: Seq<char>,
    lenient: bool,
    done: Seq<(Seq<char>, Seq<char>)>,
) -> Result<Seq<(Seq<char>, Seq<char>)>, Seq<char>>
    decreases rest.len(),
{
    if rest.len() == 0 {
        Ok(done)
    } else {
        match text::index_of(rest, '=') {
            None => Err("attribute without value in <"@ + element + ">: '"@ + rest + "'"@),
            Some(eq) => {
                let key = text::trim(rest.take(eq));
                let after = text::trim_start(rest.skip(eq + 1));
                if !is_attribute_name(key) {
                    Err("invalid attribute name '"@ + key + "' in <"@ + element + ">"@)
                } else if after.len() == 0 || !quote_mark()(after[0]) {
                    Err("attribute '"@ + key + "' in <"@ + element + "> is missing a quoted value"@)
                } else {
                    let value = after.skip(1);
                    match text::index_of(value, after[0]) {
                        None => Err(
                            "unterminated value for attribute '"@ + key + "' in <"@ + element
                                + ">"@,
                        ),
                        Some(close) => {
                            let raw = value.take(close);
                            if raw.contains('<') {
                                Err(
                                    "raw '<' in value of attribute '"@ + key + "' in <"@ + element
                                        + ">"@,
                                )
                            } else {
                                match entity::decoded(raw, lenient) {
                                    Err(message) => Err(message),
                                    Ok(v) => if has_key(done, key) {
                                        Err(
                                            "duplicate attribute '"@ + key + "' in <"@ + element
                                                + ">"@,
                                        )
                                    } else {
                                        proof {
                                            lemma_attribute_rest(rest);
                                        }
                                        attributes(
                                            text::trim_start(value.skip(close + 1)),
                                            element,
                                            lenient,
                                            done.push((key, v)),
                                        )
                                    },
                                }
                            }
                        },
                    }
                }
            },
        }
    }
}

/// Characters that no element name holds.
pub open spec fn has_name_breaker(name: Seq<char>) -> bool {
    name.contains('=') || name.contains('"') || name.contains('\'') || name.contains('<')
        || name.contains('&')
}

/// The name in the body of a start tag: what stands before the first space.
pub open spec fn tag_name(body: Seq<char>) -> Seq<char> {
    match text::index_of_white(body) {
        Some(n) => body.take(n),
        None => body,
    }
}

/// The element name and the attributes in the body of a start tag.
pub open spec fn tag_content(body: Seq<char>, lenient: bool) -> Result<
    (Seq<char>, Seq<(Seq<char>, Seq<char>)>),
    Seq<char>,
> {
    let inner = text::trim(body);
    let name = tag_name(inner);
    if name.len() == 0 {
        Err("start tag with empty name"@)
    } else if has_name_breaker(name) {
        Err("invalid element name '"@ + name + "'"@)
    } else {
        match attributes(
            text::trim_start(inner.skip(name.len() as int)),
            name,
            lenient,
            seq![],
        ) {
            Ok(pairs) => Ok((name, pairs)),
            Err(message) => Err(message),
        }
    }
}

/// `<name key="value" ... >`, perhaps with a `/` before the `>`.
pub open spec fn start_tag(st: State) -> Option<(Reply, State)> {
    match tag_end(st.input, 1, None) {
        None => st.starve("unterminated start tag (missing '>')"@),
        Some(end) => match utf8_text(st.input.subrange(1, end)) {
            Err(message) => st.advance(1).fail(message),
            Ok(raw) => {
                let rest = st.advance(end + 1);
                let self_closing = raw.len() > 0 && raw.last() == '/';
                let body = if self_closing {
                    raw.drop_last()
                } else {
                    raw
                };
                match tag_content(body, st.lenient) {
                    Err(message) => rest.fail(message),
                    Ok((name, pairs)) => Some(
                        (
                            Ok(EventView::Start { name, attributes: pairs }),
                            State {
                                seen_element: true,
                                stack: rest.stack.push(name),
                                pending: if self_closing {
                                    Some(name)
                                } else {
                                    None
                                },
                                ..rest
                            },
                        ),
                    ),
                }
            },
        },
    }
}

/// Character data up to the next `<`.
pub open spec fn characters(st: State) -> Option<(Reply, State)> {
    match find(st.input, lt()) {
        None => if st.closed {
            character_run(st, st.input.len() as int)
        } else {
            None
        },
        Some(end) => character_run(st, end),
    }
}

/// Character data of `n` bytes.
pub open spec fn character_run(st: State, n: int) -> Option<(Reply, State)> {
    match utf8_text(st.input.take(n)) {
        Err(message) => st.fail(message),
        Ok(raw) => match entity::decoded(raw, st.lenient) {
            Ok(decoded) => Some((Ok(EventView::Text(decoded)), st.advance(n))),
            Err(message) => st.advance(n).fail(message),
        },
    }
}

/// `<! ... >`: a comment, a CDATA section or a `DOCTYPE` declaration.
pub open spec fn declaration(st: State) -> Option<(Reply, State)> {
    match st.looking_at(2, comment_open()) {
        None => None,
        Some(true) => comment(st),
        Some(false) => match st.looking_at(
            2,
            cdata_open(),
        ) {
            None => None,
            Some(true) => cdata(st),
            Some(false) => match st.looking_at(
                2,
                doctype_upper(),
            ) {
                None => None,
                Some(true) => doctype(st),
                Some(false) => match st.looking_at(
                    2,
                    doctype_lower(),
                ) {
                    None => None,
                    Some(true) => doctype(st),
                    Some(false) => st.fail("unrecognized markup after '<!'"@),
                },
            },
        },
    }
}

/// Markup: what begins with `<`.
pub open spec fn markup(st: State) -> Option<(Reply, State)> {
    if st.input.len() < 2 {
        st.starve("unexpected end of file after '<'"@)
    } else if st.input[1] == BANG {
        declaration(st)
    } else if st.input[1] == QUESTION {
        instruction(st)
    } else if st.input[1] == SLASH {
        end_tag(st)
    } else {
        start_tag(st)
    }
}

/// The end of the input.
pub open spec fn end_of_input(st: State) -> Option<(Reply, State)> {
    if st.stack.len() > 0 {
        st.fail(
            "unexpected end of file: "@ + number::decimal(st.stack.len())
                + " unclosed element(s), <"@ + st.stack.last() + "> still open"@,
        )
    } else if !st.seen_element {
        st.fail("no XML element found in input"@)
    } else {
        Some((Ok(EventView::Eof), State { finished: true, ..st }))
    }
}

/// The next token: character data, markup, or the end of the input.
pub open spec fn token(st: State) -> Option<(Reply, State)> {
    if st.input.len() == 0 {
        if st.closed {
            end_of_input(st)
        } else {
            None
        }
    } else if st.input[0] != LT {
        characters(State { seen_content: true, ..st })
    } else {
        markup(State { seen_content: true, ..st })
    }
}

/// The first token: a UTF-8 byte-order mark is skipped, a UTF-16 one refused.
pub open spec fn first_token(st: State) -> Option<(Reply, State)> {
    match st.looking_at(0, utf8_mark()) {
        None => None,
        Some(true) => token(st.advance(3)),
        Some(false) => match st.looking_at(0, utf16_le_mark()) {
            None => None,
            Some(true) => st.fail(utf16_message()),
            Some(false) => match st.looking_at(0, utf16_be_mark()) {
                None => None,
                Some(true) => st.fail(utf16_message()),
                Some(false) => token(st),
            },
        },
    }
}

/// The message for a UTF-16 byte-order mark.
pub open spec fn utf16_message() -> Seq<char> {
    "input looks like UTF-16 (byte-order mark found); re-encode to UTF-8 first, e.g. `iconv -f UTF-16 -t UTF-8`"@
}

/// The next reply and the state behind it; `None` when that is not decided
/// by the bytes at hand.
pub open spec fn next(st: State) -> Option<(Reply, State)> {
    match st.pending {
        Some(name) => Some(
            (
                Ok(EventView::End { name }),
                State { pending: None, stack: st.stack.drop_last(), ..st },
            ),
        ),
        None => if st.finished {
            Some((Ok(EventView::Eof), st))
        } else if !st.seen_content {
            first_token(st)
        } else {
            token(st)
        },
    }
}

/// What is left behind an attribute is shorter than what it began.
pub proof fn lemma_attribute_rest(rest: Seq<char>)
    requires
        text::index_of(rest, '=') is Some,
        text::trim_start(rest.skip(text::index_of(rest, '=')->0 + 1)).len() > 0,
    ensures
        ({
            let after = text::trim_start(rest.skip(text::index_of(rest, '=')->0 + 1));
            let value = after.skip(1);
            text::index_of(value, after[0]) matches Some(close) ==> text::trim_start(
                value.skip(close + 1),
            ).len() < rest.len()
        }),
{
    let eq = text::index_of(rest, '=')->0;
    text::lemma_first_where_found(rest, text::equal_to('='));
    text::lemma_trim_start_len(rest.skip(eq + 1));
    let after = text::trim_start(rest.skip(eq + 1));
    let value = after.skip(1);
    text::lemma_first_where_found(value, text::equal_to(after[0]));
    if let Some(close) = text::index_of(value, after[0]) {
        text::lemma_trim_start_len(value.skip(close + 1));
    }
}

/// A complete input decides every reply.
pub proof fn law_closed_input_decides(st: State)
    requires
        st.closed,
    ensures
        next(st) is Some,
{
}

proof fn lemma_attributes(
    rest: Seq<char>,
    element: Seq<char>,
    lenient: bool,
    done: Seq<(Seq<char>, Seq<char>)>,
)
    requires
        forall|i: int, j: int|
            0 <= i < j < done.len() ==> (#[trigger] done[i]).0 != (#[trigger] done[j]).0,
        forall|i: int| 0 <= i < done.len() ==> is_attribute_name((#[trigger] done[i]).0),
    ensures
        attributes(rest, element, lenient, done) matches Ok(all) ==> {
            &&& forall|i: int, j: int|
                0 <= i < j < all.len() ==> (#[trigger] all[i]).0 != (#[trigger] all[j]).0
            &&& forall|i: int| 0 <= i < all.len() ==> is_attribute_name((#[trigger] all[i]).0)
        },
    decreases rest.len(),
{
    if rest.len() > 0 {
        if let Some(eq) = text::index_of(rest, '=') {
            let key = text::trim(rest.take(eq));
            let after = text::trim_start(rest.skip(eq + 1));
            if is_attribute_name(key) && after.len() > 0 && quote_mark()(after[0]) {
                let value = after.skip(1);
                if let Some(close) = text::index_of(value, after[0]) {
                    if let Ok(v) = entity::decoded(value.take(close), lenient) {
                        if !has_key(done, key) {
                            lemma_attribute_rest(rest);
                            lemma_attributes(
                                text::trim_start(value.skip(close + 1)),
                                element,
                                lenient,
                                done.push((key, v)),
                            );
                        }
                    }
                }
            }
        }
    }
}

/// A start tag that is read has a name, and attributes whose names are all
/// different.
pub proof fn law_attribute_names_are_distinct(body: Seq<char>, lenient: bool)
    ensures
        tag_content(body, lenient) matches Ok((name, all)) ==> {
            &&& name.len() > 0
            &&& !has_name_breaker(name)
            &&& forall|i: int, j: int|
                0 <= i < j < all.len() ==> (#[trigger] all[i]).0 != (#[trigger] all[j]).0
            &&& forall|i: int| 0 <= i < all.len() ==> is_attribute_name((#[trigger] all[i]).0)
        },
{
    let inner = text::trim(body);
    let name = tag_name(inner);
    lemma_attributes(text::trim_start(inner.skip(name.len() as int)), name, lenient, seq![]);
}

} // verus!
