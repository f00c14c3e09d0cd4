//! A streaming pull parser, using constant memory.
//!
//! The parser keeps a single sliding byte buffer: bytes are fed in chunks,
//! consumed token by token, and dropped when the next chunk arrives, so a
//! 40 GB dump needs the same few hundred kilobytes as a 4 KB sample.
//! Well-formedness is tracked with an open-element stack (memory proportional
//! to nesting depth, not file size).
//!
//! Deliberate liberties, chosen for real-world dump rescue:
//!
//! - Multiple root elements are allowed. Log-style XML streams that
//!   concatenate fragments without a wrapper are common and worth saving.
//! - `DOCTYPE` declarations (including an internal subset) are skipped, not
//!   resolved.
//! - Only UTF-8 input is accepted; a UTF-16 BOM produces a clear error
//!   instead of garbage.

use vstd::prelude::*;
use vstd::slice::slice_subrange;

use crate::entity;
use crate::entity::decode_chars;
use crate::markup;
use crate::markup::{
    EventView, Failure, Reply, Section, State, APOS, BANG, DASH, GT, LBRACKET, LF, LT, QUESTION, QUOT,
    RBRACKET, SLASH,
};
use crate::number;
use crate::number::push_decimal;
use crate::text;
use crate::text::{
    chars_of, find_char, find_white, has_char, join3, join5, same_chars, string_of, trimmed,
    trimmed_start,
};

verus! {

/// Refill granularity. Big enough to amortize system calls, small enough that
/// "constant memory" stays an honest claim.
pub const CHUNK: usize = 65536;

/// One pull event. Names and attribute values arrive fully decoded.
#[derive(Debug, Clone, PartialEq)]
pub enum Event {
    /// The `<?xml ...?>` declaration, if present.
    Declaration,
    /// A `<!DOCTYPE ...>` declaration (contents skipped, not resolved).
    Doctype,
    /// A comment body (without `<!--` / `-->`).
    Comment(String),
    /// A processing instruction body (without `<?` / `?>`).
    Pi(String),
    /// An element start tag. Self-closing tags produce `Start` then `End`.
    Start { name: String, attributes: Vec<(String, String)> },
    /// An element end tag, always paired with the matching `Start`.
    End { name: String },
    /// Character data with entities decoded.
    Text(String),
    /// A CDATA section, verbatim.
    CData(String),
    /// End of input; all open elements are closed.
    Eof,
}

impl View for Event {
    type V = EventView;

    open spec fn view(&self) -> EventView {
        match *self {
            Event::Declaration => EventView::Declaration,
            Event::Doctype => EventView::Doctype,
            Event::Comment(s) => EventView::Comment(s@),
            Event::Pi(s) => EventView::Pi(s@),
            Event::Start { name, attributes } => EventView::Start {
                name: name@,
                attributes: text::pair_views(attributes@),
            },
            Event::End { name } => EventView::End { name: name@ },
            Event::Text(s) => EventView::Text(s@),
            Event::CData(s) => EventView::CData(s@),
            Event::Eof => EventView::Eof,
        }
    }
}

/// A parse failure with the 1-based line where it was detected.
#[derive(Debug, Clone, PartialEq)]
pub struct ParseError {
    pub message: String,
    pub line: u64,
}

impl View for ParseError {
    type V = Failure;

    open spec fn view(&self) -> Failure {
        Failure { message: self.message@, line: self.line as int }
    }
}

/// The failure as shown to a user: `line N: message`.
pub open spec fn shown_failure(f: Failure) -> Seq<char> {
    "line "@ + number::decimal(f.line as nat) + ": "@ + f.message
}

impl ParseError {
    /// The failure as shown to a user: `line N: message`.
    pub fn to_string(&self) -> (r: String)
        ensures
            r@ == shown_failure(self@),
    {
        let mut r = "line ".to_owned();
        push_decimal(&mut r, self.line);
        r.append(": ");
        r.append(&self.message);
        r
    }
}

/// Parser configuration.
#[derive(Debug, Clone, Copy, PartialEq)]
pub struct ParserOptions {
    /// Pass unknown named entities (`&nbsp;`) through verbatim instead of
    /// failing. Malformed references are still errors.
    pub lenient_entities: bool,
}

impl Default for ParserOptions {
    fn default() -> (r: Self)
        ensures
            !r.lenient_entities,
    {
        ParserOptions { lenient_entities: false }
    }
}

/// The view of an answer.
pub open spec fn reply_view(r: Result<Event, ParseError>) -> Reply {
    match r {
        Ok(event) => Ok(event@),
        Err(e) => Err(e@),
    }
}

/// `r` is the answer that `expected` says, and `after` the state behind it;
/// without an answer the state is as before.
pub open spec fn answers(
    r: Option<Result<Event, ParseError>>,
    before: State,
    after: State,
    expected: Option<(Reply, State)>,
) -> bool {
    match expected {
        None => r is None && after == before,
        Some((reply, next)) => r is Some && reply_view(r->0) == reply && after == next,
    }
}

/// The state of a parser that has read nothing.
pub open spec fn fresh(input: Seq<u8>, closed: bool, lenient: bool) -> State {
    State {
        input,
        closed,
        offset: 0,
        line: 1,
        stack: seq![],
        pending: None,
        seen_content: false,
        seen_element: false,
        finished: false,
        lenient,
    }
}

/// The streaming pull parser.
pub struct Parser {
    buf: Vec<u8>,
    pos: usize,
    closed: bool,
    line: u64,
    bytes_read: u64,
    stack: Vec<String>,
    pending_end: Option<String>,
    seen_content: bool,
    seen_element: bool,
    finished: bool,
    opts: ParserOptions,
}

impl View for Parser {
    type V = State;

    closed spec fn view(&self) -> State {
        State {
            input: self.buf@.skip(self.pos as int),
            closed: self.closed,
            offset: self.bytes_read + self.pos,
            line: self.line as int,
            stack: text::views(self.stack@),
            pending: text::opt_view(self.pending_end),
            seen_content: self.seen_content,
            seen_element: self.seen_element,
            finished: self.finished,
            lenient: self.opts.lenient_entities,
        }
    }
}

/// What `section` found.
enum Sectioned {
    Open,
    Broken(ParseError),
    Body(String),
}

/// `std::str::from_utf8` accepts exactly the UTF-8 encodings and gives the
/// text that they encode; otherwise its error has a wording, which depends on
/// the bytes alone.
#[verifier::external_body]
fn utf8_string(bytes: &[u8]) -> (r: Result<String, String>)
    ensures
        match r {
            Ok(s) => vstd::utf8::valid_utf8(bytes@) && s@ == vstd::utf8::decode_utf8(bytes@),
            Err(e) => !vstd::utf8::valid_utf8(bytes@) && e@ == markup::utf8_defect(bytes@),
        },
{
    match std::str::from_utf8(bytes) {
        Ok(s) => Ok(s.to_string()),
        Err(e) => Err(e.to_string()),
    }
}

/// The message about bytes that are not UTF-8, for the reason given.
pub fn utf8_failure(reason: &str) -> (r: String)
    ensures
        r@ == "invalid UTF-8 in input ("@ + reason@ + "); only UTF-8 documents are supported"@,
{
    join3("invalid UTF-8 in input (", reason, "); only UTF-8 documents are supported")
}

/// The text that `bytes` encode, or the message that they encode none.
fn decode_text(bytes: &[u8]) -> (r: Result<String, String>)
    ensures
        entity::result_view(r) == markup::utf8_text(bytes@),
{
    match utf8_string(bytes) {
        Ok(s) => Ok(s),
        Err(e) => Err(utf8_failure(&e)),
    }
}

/// Number of line feeds in `bytes`.
fn count_newlines(bytes: &[u8]) -> (r: u64)
    requires
        bytes@.len() <= u64::MAX,
    ensures
        r == markup::newlines(bytes@),
        r <= bytes@.len(),
{
    let mut count: u64 = 0;
    let mut i: usize = 0;
    while i < bytes.len()
        invariant
            i <= bytes@.len() <= u64::MAX,
            count <= i,
            count == markup::newlines(bytes@.take(i as int)),
        decreases bytes@.len() - i,
    {
        assert(bytes@.take(i + 1).drop_last() =~= bytes@.take(i as int));
        if bytes[i] == LF {
            count = count + 1;
        }
        i = i + 1;
    }
    assert(bytes@.take(i as int) =~= bytes@);
    count
}

/// True when the bytes at `at` are `literal`.
fn bytes_at(hay: &[u8], at: usize, literal: &[u8]) -> (r: bool)
    requires
        at + literal@.len() <= hay@.len(),
    ensures
        r == (hay@.subrange(at as int, at + literal@.len()) == literal@),
{
    let mut i: usize = 0;
    while i < literal.len()
        invariant
            i <= literal@.len(),
            at + literal@.len() <= hay.len(),
            forall|j: int| 0 <= j < i ==> hay@[at + j] == literal@[j],
        decreases literal@.len() - i,
    {
        if hay[at + i] != literal[i] {
            assert(hay@.subrange(at as int, at + literal@.len())[i as int] != literal@[i as int]);
            return false;
        }
        i = i + 1;
    }
    assert(hay@.subrange(at as int, at + literal@.len()) =~= literal@);
    true
}

/// `o` with `by` added.
spec fn shifted(o: Option<int>, by: int) -> Option<int> {
    match o {
        Some(i) => Some(i + by),
        None => None,
    }
}

/// Index of the first occurrence of `needle`.
fn find(hay: &[u8], needle: &[u8]) -> (r: Option<usize>)
    requires
        needle@.len() > 0,
    ensures
        r matches Some(i) ==> markup::find(hay@, needle@) == Some(i as int) && i + needle@.len()
            <= hay@.len(),
        r is None ==> markup::find(hay@, needle@) is None,
{
    let mut i: usize = 0;
    assert(hay@.skip(0) =~= hay@);
    while i < hay.len() && needle.len() <= hay.len() - i
        invariant
            i <= hay@.len(),
            needle@.len() > 0,
            markup::find(hay@, needle@) == shifted(
                markup::find(hay@.skip(i as int), needle@),
                i as int,
            ),
        decreases hay@.len() - i,
    {
        assert(hay@.skip(i as int).take(needle@.len() as int) =~= hay@.subrange(
            i as int,
            i + needle@.len(),
        ));
        if bytes_at(hay, i, needle) {
            return Some(i);
        }
        assert(hay@.skip(i as int).skip(1) =~= hay@.skip(i + 1));
        i = i + 1;
    }
    None
}

/// A byte-order mark holds no line feed.
proof fn lemma_mark_is_no_line()
    ensures
        markup::newlines(markup::utf8_mark()) == 0,
{
    let mark = markup::utf8_mark();
    reveal_with_fuel(markup::newlines, 4);
    assert(mark.drop_last() =~= seq![0xefu8, 0xbbu8]);
    assert(mark.drop_last().drop_last() =~= seq![0xefu8]);
    assert(mark.drop_last().drop_last().drop_last() =~= seq![]);
}

impl Parser {
    /// The parser's own consistency; every constructor establishes it and
    /// every method keeps it.
    pub closed spec fn wf(&self) -> bool {
        &&& self.pos <= self.buf@.len()
        &&& self.bytes_read + self.buf@.len() < u64::MAX
        &&& self@.wf()
    }

    /// What the consistency of a parser says of its state.
    pub proof fn lemma_wf(&self)
        requires
            self.wf(),
        ensures
            self@.wf(),
            self@.offset + self@.input.len() < u64::MAX,
            self@.input.len() <= self.held(),
    {
    }

    /// Number of input bytes in memory, consumed ones included.
    pub closed spec fn held(&self) -> nat {
        self.buf@.len()
    }

    /// The same bytes lie in the buffer.
    spec fn same_buffer(&self, other: &Parser) -> bool {
        self.buf@ == other.buf@ && self.bytes_read == other.bytes_read
    }

    /// A parser over a whole document.
    pub fn new(input: &[u8], opts: ParserOptions) -> (r: Self)
        requires
            input@.len() < u64::MAX,
        ensures
            r.wf(),
            r@ == fresh(input@, true, opts.lenient_entities),
            r.held() == input@.len(),
    {
        let mut r = Parser::streaming(opts);
        r.feed(input);
        r.close();
        assert(r@.input =~= input@);
        r
    }

    /// A parser whose input is fed to it chunk by chunk.
    pub fn streaming(opts: ParserOptions) -> (r: Self)
        ensures
            r.wf(),
            r@ == fresh(seq![], false, opts.lenient_entities),
            r.held() == 0,
    {
        let r = Parser {
            buf: Vec::new(),
            pos: 0,
            closed: false,
            line: 1,
            bytes_read: 0,
            stack: Vec::new(),
            pending_end: None,
            seen_content: false,
            seen_element: false,
            finished: false,
            opts,
        };
        assert(r@.input =~= seq![]);
        assert(r@.stack =~= seq![]);
        r
    }

    /// Appends `chunk` to the input. Bytes that are already consumed are
    /// dropped first, so the buffer holds what waits for the end of its token
    /// and the chunk, and nothing else. This is what makes memory constant.
    pub fn feed(&mut self, chunk: &[u8])
        requires
            old(self).wf(),
            !old(self)@.closed,
            old(self)@.offset + old(self)@.input.len() + chunk@.len() < u64::MAX,
        ensures
            final(self).wf(),
            final(self)@ == old(self)@.with_more(chunk@),
            final(self).held() == old(self)@.input.len() + chunk@.len(),
    {
        let ghost before = self@;
        if self.pos > 0 {
            let tail = self.buf.split_off(self.pos);
            self.bytes_read = self.bytes_read + self.pos as u64;
            self.buf = tail;
            self.pos = 0;
            assert(self@.input =~= before.input);
        }
        assert(self@ =~= before);
        let ghost kept = self.buf@;
        self.buf.extend_from_slice(chunk);
        assert(self.buf@ =~= kept + chunk@);
        assert(self@.input =~= before.input + chunk@);
        assert(self@ =~= before.with_more(chunk@));
    }

    /// Declares the input complete.
    pub fn close(&mut self)
        requires
            old(self).wf(),
        ensures
            final(self).wf(),
            final(self)@ == (State { closed: true, ..old(self)@ }),
            final(self).held() <= old(self).held(),
    {
        self.closed = true;
    }

    /// Number of bytes that can still be fed.
    pub fn room(&self) -> (r: u64)
        requires
            self.wf(),
        ensures
            r == u64::MAX - 1 - self@.offset - self@.input.len(),
    {
        u64::MAX - 1 - self.bytes_read - self.buf.len() as u64
    }

    /// Number of bytes to feed next: a chunk, or as many as are waiting for
    /// the end of a token that is longer. A giant token is then looked
    /// through a bounded number of times, however long it is.
    pub fn wanted(&self) -> (r: usize)
        requires
            self.wf(),
        ensures
            r == (if self@.input.len() > CHUNK {
                self@.input.len()
            } else {
                CHUNK as nat
            }),
    {
        let waiting = self.buf.len() - self.pos;
        if waiting > CHUNK {
            waiting
        } else {
            CHUNK
        }
    }

    /// Total bytes consumed from the input so far.
    pub fn bytes_read(&self) -> (r: u64)
        requires
            self.wf(),
        ensures
            r == self@.offset,
    {
        self.bytes_read + self.pos as u64
    }

    /// 1-based line of the parser's current position.
    pub fn line(&self) -> (r: u64)
        ensures
            r == self@.line,
    {
        self.line
    }

    /// Nesting depth of currently open elements.
    pub fn depth(&self) -> (r: usize)
        ensures
            r == self@.stack.len(),
    {
        self.stack.len()
    }

    /// A failure at the current line.
    fn err(&self, message: String) -> (r: ParseError)
        ensures
            r@ == (Failure { message: message@, line: self@.line }),
    {
        ParseError { message, line: self.line }
    }

    /// The failure to report when the input could not be read.
    pub fn read_failure(&self, reason: &str) -> (r: ParseError)
        ensures
            r@ == (Failure { message: "read error: "@ + reason@, line: self@.line }),
    {
        self.err(text::join2("read error: ", reason))
    }

    /// The bytes at hand.
    fn rest(&self) -> (r: &[u8])
        requires
            self.wf(),
        ensures
            r@ == self@.input,
    {
        slice_subrange(self.buf.as_slice(), self.pos, self.buf.len())
    }

    /// Byte at `i`, if it is at hand.
    fn peek(&self, i: usize) -> (r: Option<u8>)
        requires
            self.wf(),
        ensures
            r == (if i < self@.input.len() {
                Some(self@.input[i as int])
            } else {
                None
            }),
    {
        if i < self.buf.len() - self.pos {
            Some(self.buf[self.pos + i])
        } else {
            None
        }
    }

    /// True if the bytes at `offset` are `literal`; `None` when that is open.
    fn starts_with_at(&self, offset: usize, literal: &[u8]) -> (r: Option<bool>)
        requires
            self.wf(),
        ensures
            r == self@.looking_at(offset as int, literal@),
    {
        let hay = self.rest();
        if offset <= hay.len() && literal.len() <= hay.len() - offset {
            Some(bytes_at(hay, offset, literal))
        } else if self.closed {
            Some(false)
        } else {
            None
        }
    }

    /// Consume `n` bytes, updating the line counter.
    fn consume(&mut self, n: usize)
        requires
            old(self).wf(),
            n <= old(self)@.input.len(),
        ensures
            final(self).wf(),
            final(self).same_buffer(old(self)),
            final(self)@ == old(self)@.advance(n as int),
    {
        let ghost before = self@;
        assert(self.pos + n <= self.buf.len());
        let taken = slice_subrange(self.buf.as_slice(), self.pos, self.pos + n);
        assert(taken@ =~= before.input.take(n as int));
        let count = count_newlines(taken);
        self.line = self.line + count;
        self.pos = self.pos + n;
        assert(self@.input =~= before.input.skip(n as int));
        assert(self@ =~= before.advance(n as int));
    }

    /// Takes the text behind an opening mark of `intro` bytes, up to `close`.
    fn section(&mut self, intro: usize, close: &[u8], missing: &str) -> (r: Sectioned)
        requires
            old(self).wf(),
            intro <= old(self)@.input.len(),
            close@.len() > 0,
        ensures
            final(self).wf(),
            final(self).same_buffer(old(self)),
            match markup::section(old(self)@, intro as int, close@, missing@) {
                Section::Open => r is Open && final(self)@ == old(self)@,
                Section::Broken(message, at) => r matches Sectioned::Broken(e) && e@ == (Failure {
                    message,
                    line: at.line,
                }) && final(self)@ == at,
                Section::Body(body, rest) => r matches Sectioned::Body(s) && s@ == body
                    && final(self)@ == rest,
            },
    {
        let hay = self.rest();
        let inner = slice_subrange(hay, intro, hay.len());
        match find(inner, close) {
            None => {
                if self.closed {
                    self.consume(intro);
                    Sectioned::Broken(self.err(missing.to_owned()))
                } else {
                    Sectioned::Open
                }
            },
            Some(end) => {
                let decoded = decode_text(slice_subrange(inner, 0, end));
                self.consume(intro);
                match decoded {
                    Ok(body) => {
                        self.consume(end + close.len());
                        Sectioned::Body(body)
                    },
                    Err(message) => Sectioned::Broken(self.err(message)),
                }
            },
        }
    }

    fn parse_comment(&mut self) -> (r: Option<Result<Event, ParseError>>)
        requires
            old(self).wf(),
            4 <= old(self)@.input.len(),
        ensures
            final(self).wf(),
            final(self).same_buffer(old(self)),
            answers(r, old(self)@, final(self)@, markup::comment(old(self)@)),
    {
        let close: [u8; 3] = [DASH, DASH, GT];
        assert(close@ =~= markup::comment_close());
        match self.section(4, &close, "unterminated comment (missing '-->')") {
            Sectioned::Open => None,
            Sectioned::Broken(e) => Some(Err(e)),
            Sectioned::Body(body) => Some(Ok(Event::Comment(body))),
        }
    }

    fn parse_cdata(&mut self) -> (r: Option<Result<Event, ParseError>>)
        requires
            old(self).wf(),
            9 <= old(self)@.input.len(),
        ensures
            final(self).wf(),
            final(self).same_buffer(old(self)),
            answers(r, old(self)@, final(self)@, markup::cdata(old(self)@)),
    {
        let close: [u8; 3] = [RBRACKET, RBRACKET, GT];
        assert(close@ =~= markup::cdata_close());
        match self.section(9, &close, "unterminated CDATA section (missing ']]>')") {
            Sectioned::Open => None,
            Sectioned::Broken(e) => Some(Err(e)),
            Sectioned::Body(body) => Some(Ok(Event::CData(body))),
        }
    }

    fn parse_pi(&mut self) -> (r: Option<Result<Event, ParseError>>)
        requires
            old(self).wf(),
            2 <= old(self)@.input.len(),
        ensures
            final(self).wf(),
            final(self).same_buffer(old(self)),
            answers(r, old(self)@, final(self)@, markup::instruction(old(self)@)),
    {
        let close: [u8; 2] = [QUESTION, GT];
        assert(close@ =~= markup::pi_close());
        match self.section(2, &close, "unterminated processing instruction (missing '?>')") {
            Sectioned::Open => None,
            Sectioned::Broken(e) => Some(Err(e)),
            Sectioned::Body(body) => {
                let chars = chars_of(&body);
                if is_xml_target(&chars) {
                    match declared_encoding(&chars) {
                        Some(encoding) => {
                            if is_utf8_name(&encoding) {
                                Some(Ok(Event::Declaration))
                            } else {
                                Some(
                                    Err(
                                        self.err(
                                            join3(
                                                "declared encoding '",
                                                &string_of(&encoding),
                                                "' is not supported; re-encode the document to UTF-8",
                                            ),
                                        ),
                                    ),
                                )
                            }
                        },
                        None => Some(Ok(Event::Declaration)),
                    }
                } else {
                    Some(Ok(Event::Pi(body)))
                }
            },
        }
    }

    fn parse_end_tag(&mut self) -> (r: Option<Result<Event, ParseError>>)
        requires
            old(self).wf(),
            2 <= old(self)@.input.len(),
            old(self)@.pending is None,
            !old(self)@.finished,
        ensures
            final(self).wf(),
            final(self).same_buffer(old(self)),
            answers(r, old(self)@, final(self)@, markup::end_tag(old(self)@)),
    {
        let close: [u8; 1] = [GT];
        assert(close@ =~= markup::gt());
        match self.section(2, &close, "unterminated closing tag (missing '>')") {
            Sectioned::Open => None,
            Sectioned::Broken(e) => Some(Err(e)),
            Sectioned::Body(body) => {
                let chars = chars_of(&body);
                let name = trimmed(&chars);
                if name.len() == 0 {
                    return Some(Err(self.err("closing tag with empty name".to_owned())));
                }
                let name = string_of(name);
                if self.stack.len() == 0 {
                    return Some(
                        Err(self.err(join3("closing tag </", &name, "> with no element open"))),
                    );
                }
                let ghost st = self@;
                let top = &self.stack[self.stack.len() - 1];
                assert(top@ == st.stack.last());
                if !text::same(top, &name) {
                    let message = join5(
                        "mismatched closing tag: expected </",
                        top,
                        ">, found </",
                        &name,
                        ">",
                    );
                    return Some(Err(self.err(message)));
                }
                let popped = self.stack.pop();
                assert(self@.stack =~= st.stack.drop_last());
                assert(self@ =~= State { stack: st.stack.drop_last(), ..st });
                Some(Ok(Event::End { name }))
            },
        }
    }
}

/// True when the first word of a processing instruction is `xml`.
fn is_xml_target(body: &[char]) -> (r: bool)
    ensures
        r == (markup::lowered(markup::first_word(body@)) == "xml"@),
{
    let t = trimmed_start(body);
    let word = match find_white(t) {
        Some(n) => slice_subrange(t, 0, n),
        None => t,
    };
    same_chars(&lowered(word), &chars_of("xml"))
}

/// `s` with its ASCII letters in lower case.
fn lowered(s: &[char]) -> (r: Vec<char>)
    ensures
        r@ == markup::lowered(s@),
{
    let mut r: Vec<char> = Vec::new();
    let mut i: usize = 0;
    while i < s.len()
        invariant
            i <= s@.len(),
            r@ == markup::lowered(s@.take(i as int)),
        decreases s@.len() - i,
    {
        let c = s[i];
        let low = if 'A' <= c && c <= 'Z' {
            (c as u8 + 32) as char
        } else {
            c
        };
        r.push(low);
        i = i + 1;
        assert(r@ =~= markup::lowered(s@.take(i as int)));
    }
    assert(s@.take(i as int) =~= s@);
    r
}

/// Index of the first occurrence of `needle`.
fn find_chars(hay: &[char], needle: &[char]) -> (r: Option<usize>)
    requires
        needle@.len() > 0,
    ensures
        r matches Some(i) ==> markup::find(hay@, needle@) == Some(i as int) && i + needle@.len()
            <= hay@.len(),
        r is None ==> markup::find(hay@, needle@) is None,
{
    let mut i: usize = 0;
    assert(hay@.skip(0) =~= hay@);
    while i < hay.len() && needle.len() <= hay.len() - i
        invariant
            i <= hay@.len(),
            needle@.len() > 0,
            markup::find(hay@, needle@) == shifted(
                markup::find(hay@.skip(i as int), needle@),
                i as int,
            ),
        decreases hay@.len() - i,
    {
        let here = slice_subrange(hay, i, i + needle.len());
        assert(hay@.skip(i as int).take(needle@.len() as int) =~= here@);
        if same_chars(here, needle) {
            return Some(i);
        }
        assert(hay@.skip(i as int).skip(1) =~= hay@.skip(i + 1));
        i = i + 1;
    }
    None
}

/// Index of the first quotation mark.
fn find_quote(s: &[char]) -> (r: Option<usize>)
    ensures
        r matches Some(i) ==> text::first_where(s@, markup::quote_mark()) == Some(i as int) && i
            < s@.len(),
        r is None ==> text::first_where(s@, markup::quote_mark()) is None,
{
    let ghost p = markup::quote_mark();
    let mut i: usize = 0;
    while i < s.len()
        invariant
            i <= s@.len(),
            p == markup::quote_mark(),
            forall|j: int| 0 <= j < i ==> !p(#[trigger] s@[j]),
        decreases s@.len() - i,
    {
        if s[i] == '"' || s[i] == '\'' {
            proof {
                text::lemma_first_where(s@, p, i as int);
            }
            return Some(i);
        }
        i = i + 1;
    }
    proof {
        text::lemma_first_where_none(s@, p);
    }
    None
}

/// The encoding that a declaration names, in lower case.
fn declared_encoding(declaration: &[char]) -> (r: Option<Vec<char>>)
    ensures
        r matches Some(e) ==> markup::declared_encoding(declaration@) == Some(e@),
        r is None ==> markup::declared_encoding(declaration@) is None,
{
    let low = lowered(declaration);
    let key = chars_of("encoding");
    proof {
        reveal_strlit("encoding");
    }
    let at = match find_chars(&low, &key) {
        Some(at) => at,
        None => {
            return None;
        },
    };
    let total = low.len();
    let tail = slice_subrange(low.as_slice(), at + key.len(), total);
    let q = match find_quote(tail) {
        Some(q) => q,
        None => {
            return None;
        },
    };
    let value = slice_subrange(tail, q + 1, tail.len());
    match find_char(value, tail[q]) {
        Some(end) => {
            let name = trimmed(slice_subrange(value, 0, end));
            Some(vstd::slice::slice_to_vec(name))
        },
        None => None,
    }
}

/// True for the encodings whose documents are UTF-8 documents.
fn is_utf8_name(encoding: &[char]) -> (r: bool)
    ensures
        r == markup::is_utf8_name(encoding@),
{
    same_chars(encoding, &chars_of("utf-8")) || same_chars(encoding, &chars_of("utf8"))
        || same_chars(encoding, &chars_of("us-ascii")) || same_chars(encoding, &chars_of("ascii"))
}

/// True when `key` is among the names of `attributes`.
fn has_attribute(attributes: &Vec<(String, String)>, key: &str) -> (r: bool)
    ensures
        r == markup::has_key(text::pair_views(attributes@), key@),
{
    let ghost pairs = text::pair_views(attributes@);
    let mut i: usize = 0;
    while i < attributes.len()
        invariant
            i <= attributes@.len(),
            pairs == text::pair_views(attributes@),
            forall|j: int| 0 <= j < i ==> (#[trigger] pairs[j]).0 != key@,
        decreases attributes@.len() - i,
    {
        if text::same(&attributes[i].0, key) {
            assert(pairs[i as int].0 == key@);
            return true;
        }
        i = i + 1;
    }
    false
}

/// True when `key` can name an attribute.
fn is_attribute_name(key: &[char]) -> (r: bool)
    ensures
        r == markup::is_attribute_name(key@),
{
    key.len() > 0 && find_white(key).is_none() && !has_char(key, '"') && !has_char(key, '\'')
}

/// True when `name` holds a character that no element name holds.
fn has_name_breaker(name: &[char]) -> (r: bool)
    ensures
        r == markup::has_name_breaker(name@),
{
    has_char(name, '=') || has_char(name, '"') || has_char(name, '\'') || has_char(name, '<')
        || has_char(name, '&')
}

/// Split `name attr="v" attr2='v'` into a name and decoded attributes.
fn parse_tag_body(body: &[char], lenient: bool) -> (r: Result<
    (String, Vec<(String, String)>),
    String,
>)
    ensures
        match markup::tag_content(body@, lenient) {
            Ok((name, pairs)) => r matches Ok(v) && v.0@ == name && text::pair_views(v.1@) == pairs,
            Err(message) => r matches Err(e) && e@ == message,
        },
{
    let inner = trimmed(body);
    let name_end = match find_white(inner) {
        Some(n) => n,
        None => inner.len(),
    };
    let name = slice_subrange(inner, 0, name_end);
    assert(name@ =~= markup::tag_name(inner@));
    if name.len() == 0 {
        return Err("start tag with empty name".to_owned());
    }
    if has_name_breaker(name) {
        return Err(join3("invalid element name '", &string_of(name), "'"));
    }
    let element = string_of(name);
    let mut attrs: Vec<(String, String)> = Vec::new();
    let mut rest = trimmed_start(slice_subrange(inner, name_end, inner.len()));
    let ghost all = rest@;
    assert(text::pair_views(attrs@) =~= seq![]);
    while rest.len() > 0
        invariant
            markup::attributes(all, element@, lenient, seq![]) == markup::attributes(
                rest@,
                element@,
                lenient,
                text::pair_views(attrs@),
            ),
            markup::tag_content(body@, lenient) == (match markup::attributes(
                all,
                element@,
                lenient,
                seq![],
            ) {
                Ok(pairs) => Ok::<_, Seq<char>>((element@, pairs)),
                Err(message) => Err(message),
            }),
        decreases rest@.len(),
    {
        let eq = match find_char(rest, '=') {
            Some(eq) => eq,
            None => {
                return Err(
                    join5(
                        "attribute without value in <",
                        &element,
                        ">: '",
                        &string_of(rest),
                        "'",
                    ),
                );
            },
        };
        let key = trimmed(slice_subrange(rest, 0, eq));
        let name_ok = is_attribute_name(key);
        let key = string_of(key);
        if !name_ok {
            return Err(join5("invalid attribute name '", &key, "' in <", &element, ">"));
        }
        let after = trimmed_start(slice_subrange(rest, eq + 1, rest.len()));
        if after.len() == 0 || !(after[0] == '"' || after[0] == '\'') {
            return Err(
                join5("attribute '", &key, "' in <", &element, "> is missing a quoted value"),
            );
        }
        let value = slice_subrange(after, 1, after.len());
        let close = match find_char(value, after[0]) {
            Some(close) => close,
            None => {
                return Err(
                    join5("unterminated value for attribute '", &key, "' in <", &element, ">"),
                );
            },
        };
        let raw = slice_subrange(value, 0, close);
        if has_char(raw, '<') {
            return Err(join5("raw '<' in value of attribute '", &key, "' in <", &element, ">"));
        }
        let decoded = match decode_chars(raw, lenient) {
            Ok(v) => v,
            Err(message) => {
                return Err(message);
            },
        };
        if has_attribute(&attrs, &key) {
            return Err(join5("duplicate attribute '", &key, "' in <", &element, ">"));
        }
        proof {
            markup::lemma_attribute_rest(rest@);
        }
        let ghost done = text::pair_views(attrs@);
        let ghost pair = (key@, decoded@);
        attrs.push((key, decoded));
        assert(text::pair_views(attrs@) =~= done.push(pair));
        rest = trimmed_start(slice_subrange(value, close + 1, value.len()));
    }
    Ok((element, attrs))
}

impl Parser {
    fn parse_doctype(&mut self) -> (r: Option<Result<Event, ParseError>>)
        requires
            old(self).wf(),
            2 <= old(self)@.input.len(),
        ensures
            final(self).wf(),
            final(self).same_buffer(old(self)),
            answers(r, old(self)@, final(self)@, markup::doctype(old(self)@)),
    {
        // Skip to the matching '>' while honoring quotes and the brackets of
        // an internal subset: <!DOCTYPE x [ <!ENTITY ...> ]>
        let hay = self.rest();
        let inner = slice_subrange(hay, 2, hay.len());
        let mut i: usize = 0;
        let mut depth: i128 = 0;
        let mut quote: Option<u8> = None;
        while i < inner.len()
            invariant_except_break
                self.wf(),
                self.same_buffer(old(self)),
                self@ == old(self)@,
                inner@ == old(self)@.advance(2).input,
                i <= inner@.len(),
                2 <= old(self)@.input.len(),
                -(i as int) <= depth <= i,
                markup::doctype_end(inner@, 0, 0, None) == markup::doctype_end(
                    inner@,
                    i as int,
                    depth as int,
                    quote,
                ),
            ensures
                self.wf(),
                self.same_buffer(old(self)),
                self@ == old(self)@,
                2 <= old(self)@.input.len(),
                markup::doctype_end(old(self)@.advance(2).input, 0, 0, None) is None,
            decreases inner@.len() - i,
        {
            let b = inner[i];
            match quote {
                Some(q) => {
                    if b == q {
                        quote = None;
                    }
                },
                None => {
                    if b == QUOT || b == APOS {
                        quote = Some(b);
                    } else if b == LBRACKET || b == LT {
                        depth = depth + 1;
                    } else if b == RBRACKET {
                        depth = depth - 1;
                    } else if b == GT {
                        if depth <= 0 {
                            self.consume(2);
                            self.consume(i + 1);
                            return Some(Ok(Event::Doctype));
                        }
                        depth = depth - 1;
                    }
                },
            }
            i = i + 1;
        }
        if self.closed {
            self.consume(2);
            Some(Err(self.err("unterminated DOCTYPE declaration".to_owned())))
        } else {
            None
        }
    }

    fn parse_start_tag(&mut self) -> (r: Option<Result<Event, ParseError>>)
        requires
            old(self).wf(),
            1 <= old(self)@.input.len(),
            old(self)@.pending is None,
            !old(self)@.finished,
            old(self)@.seen_content,
        ensures
            final(self).wf(),
            final(self).same_buffer(old(self)),
            answers(r, old(self)@, final(self)@, markup::start_tag(old(self)@)),
    {
        // Find the closing '>' while honoring quoted attribute values, which
        // may legally contain '>' and newlines.
        let hay = self.rest();
        let mut i: usize = 1;
        let mut quote: Option<u8> = None;
        while i < hay.len() && !(quote.is_none() && hay[i] == GT)
            invariant
                hay@ == self@.input,
                1 <= i <= hay@.len(),
                markup::tag_end(hay@, 1, None) == markup::tag_end(hay@, i as int, quote),
            decreases hay@.len() - i,
        {
            let b = hay[i];
            match quote {
                Some(q) => {
                    if b == q {
                        quote = None;
                    }
                },
                None => {
                    if b == QUOT || b == APOS {
                        quote = Some(b);
                    }
                },
            }
            i = i + 1;
        }
        if i >= hay.len() {
            if self.closed {
                return Some(Err(self.err("unterminated start tag (missing '>')".to_owned())));
            }
            return None;
        }
        let raw = match decode_text(slice_subrange(hay, 1, i)) {
            Ok(raw) => raw,
            Err(message) => {
                self.consume(1);
                return Some(Err(self.err(message)));
            },
        };
        self.consume(i + 1);
        let chars = chars_of(&raw);
        let self_closing = chars.len() > 0 && chars[chars.len() - 1] == '/';
        let body = if self_closing {
            slice_subrange(chars.as_slice(), 0, chars.len() - 1)
        } else {
            chars.as_slice()
        };
        assert(body@ =~= (if self_closing {
            raw@.drop_last()
        } else {
            raw@
        }));
        let ghost st = self@;
        match parse_tag_body(body, self.opts.lenient_entities) {
            Ok((name, attributes)) => {
                self.seen_element = true;
                self.stack.push(name.clone());
                if self_closing {
                    self.pending_end = Some(name.clone());
                }
                assert(self@.stack =~= st.stack.push(name@));
                assert(self@ =~= State {
                    seen_element: true,
                    stack: st.stack.push(name@),
                    pending: if self_closing {
                        Some(name@)
                    } else {
                        None
                    },
                    ..st
                });
                Some(Ok(Event::Start { name, attributes }))
            },
            Err(message) => Some(Err(self.err(message))),
        }
    }

    fn parse_text(&mut self) -> (r: Option<Result<Event, ParseError>>)
        requires
            old(self).wf(),
        ensures
            final(self).wf(),
            final(self).same_buffer(old(self)),
            answers(r, old(self)@, final(self)@, markup::characters(old(self)@)),
    {
        let hay = self.rest();
        let mark: [u8; 1] = [LT];
        assert(mark@ =~= markup::lt());
        let end = match find(hay, &mark) {
            Some(end) => end,
            None => {
                if !self.closed {
                    return None;
                }
                hay.len()  // trailing text up to the end of the input

            },
        };
        match decode_text(slice_subrange(hay, 0, end)) {
            Ok(raw) => {
                self.consume(end);
                match entity::decode(&raw, self.opts.lenient_entities) {
                    Ok(s) => Some(Ok(Event::Text(s))),
                    Err(message) => Some(Err(self.err(message))),
                }
            },
            Err(message) => Some(Err(self.err(message))),
        }
    }

    fn parse_declaration(&mut self) -> (r: Option<Result<Event, ParseError>>)
        requires
            old(self).wf(),
            2 <= old(self)@.input.len(),
        ensures
            final(self).wf(),
            final(self).same_buffer(old(self)),
            answers(r, old(self)@, final(self)@, markup::declaration(old(self)@)),
    {
        let comment_open: [u8; 2] = [DASH, DASH];
        assert(comment_open@ =~= markup::comment_open());
        match self.starts_with_at(2, &comment_open) {
            None => {
                return None;
            },
            Some(true) => {
                return self.parse_comment();
            },
            Some(false) => {},
        }
        let cdata_open: [u8; 7] = [LBRACKET, 0x43, 0x44, 0x41, 0x54, 0x41, LBRACKET];
        assert(cdata_open@ =~= markup::cdata_open());
        match self.starts_with_at(2, &cdata_open) {
            None => {
                return None;
            },
            Some(true) => {
                return self.parse_cdata();
            },
            Some(false) => {},
        }
        let upper: [u8; 7] = [0x44, 0x4f, 0x43, 0x54, 0x59, 0x50, 0x45];
        assert(upper@ =~= markup::doctype_upper());
        match self.starts_with_at(2, &upper) {
            None => {
                return None;
            },
            Some(true) => {
                return self.parse_doctype();
            },
            Some(false) => {},
        }
        let lower: [u8; 7] = [0x64, 0x6f, 0x63, 0x74, 0x79, 0x70, 0x65];
        assert(lower@ =~= markup::doctype_lower());
        match self.starts_with_at(2, &lower) {
            None => None,
            Some(true) => self.parse_doctype(),
            Some(false) => Some(Err(self.err("unrecognized markup after '<!'".to_owned()))),
        }
    }

    fn parse_markup(&mut self) -> (r: Option<Result<Event, ParseError>>)
        requires
            old(self).wf(),
            1 <= old(self)@.input.len(),
            old(self)@.pending is None,
            !old(self)@.finished,
            old(self)@.seen_content,
        ensures
            final(self).wf(),
            final(self).same_buffer(old(self)),
            answers(r, old(self)@, final(self)@, markup::markup(old(self)@)),
    {
        match self.peek(1) {
            None => {
                if self.closed {
                    Some(Err(self.err("unexpected end of file after '<'".to_owned())))
                } else {
                    None
                }
            },
            Some(b) => {
                if b == BANG {
                    self.parse_declaration()
                } else if b == QUESTION {
                    self.parse_pi()
                } else if b == SLASH {
                    self.parse_end_tag()
                } else {
                    self.parse_start_tag()
                }
            },
        }
    }

    fn end_of_input(&mut self) -> (r: Option<Result<Event, ParseError>>)
        requires
            old(self).wf(),
            old(self)@.pending is None,
            old(self)@.closed,
            old(self)@.input.len() == 0,
        ensures
            final(self).wf(),
            final(self).same_buffer(old(self)),
            answers(r, old(self)@, final(self)@, markup::end_of_input(old(self)@)),
    {
        let ghost st = self@;
        if self.stack.len() > 0 {
            let top = &self.stack[self.stack.len() - 1];
            assert(top@ == st.stack.last());
            let mut message = "unexpected end of file: ".to_owned();
            push_decimal(&mut message, self.stack.len() as u64);
            message.append(" unclosed element(s), <");
            message.append(top);
            message.append("> still open");
            return Some(Err(self.err(message)));
        }
        if !self.seen_element {
            return Some(Err(self.err("no XML element found in input".to_owned())));
        }
        self.finished = true;
        assert(self@ =~= State { finished: true, ..st });
        Some(Ok(Event::Eof))
    }

    fn parse_token(&mut self) -> (r: Option<Result<Event, ParseError>>)
        requires
            old(self).wf(),
            old(self)@.pending is None,
            !old(self)@.finished,
        ensures
            final(self).wf(),
            final(self).same_buffer(old(self)),
            answers(r, old(self)@, final(self)@, markup::token(old(self)@)),
    {
        let ghost st = self@;
        match self.peek(0) {
            None => {
                if self.closed {
                    self.end_of_input()
                } else {
                    None
                }
            },
            Some(b) => {
                let before = self.seen_content;
                self.seen_content = true;
                assert(self@ =~= State { seen_content: true, ..st });
                let r = if b != LT {
                    self.parse_text()
                } else {
                    self.parse_markup()
                };
                if r.is_none() {
                    self.seen_content = before;
                    assert(self@ =~= st);
                }
                r
            },
        }
    }

    #[verifier::spinoff_prover]
    fn parse_first_token(&mut self) -> (r: Option<Result<Event, ParseError>>)
        requires
            old(self).wf(),
            old(self)@.pending is None,
            !old(self)@.finished,
        ensures
            final(self).wf(),
            final(self).same_buffer(old(self)),
            answers(r, old(self)@, final(self)@, markup::first_token(old(self)@)),
    {
        let ghost st = self@;
        let utf8: [u8; 3] = [0xef, 0xbb, 0xbf];
        assert(utf8@ =~= markup::utf8_mark());
        match self.starts_with_at(0, &utf8) {
            None => {
                return None;
            },
            Some(true) => {
                // UTF-8 BOM: harmless, skip it.
                proof {
                    lemma_mark_is_no_line();
                    assert(st.input.take(3) =~= st.input.subrange(0, 3));
                }
                self.consume(3);
                let r = self.parse_token();
                if r.is_none() {
                    self.pos = self.pos - 3;
                    assert(self@ =~= st);
                }
                return r;
            },
            Some(false) => {},
        }
        let little: [u8; 2] = [0xff, 0xfe];
        assert(little@ =~= markup::utf16_le_mark());
        let utf16 = match self.starts_with_at(0, &little) {
            None => {
                return None;
            },
            Some(true) => true,
            Some(false) => {
                let big: [u8; 2] = [0xfe, 0xff];
                assert(big@ =~= markup::utf16_be_mark());
                match self.starts_with_at(0, &big) {
                    None => {
                        return None;
                    },
                    Some(found) => found,
                }
            },
        };
        if utf16 {
            return Some(
                Err(
                    self.err(
                        "input looks like UTF-16 (byte-order mark found); re-encode to UTF-8 first, e.g. `iconv -f UTF-16 -t UTF-8`".to_owned(),
                    ),
                ),
            );
        }
        self.parse_token()
    }

    /// Pull the next event, or `None` when the bytes fed so far do not decide
    /// it. After `Eof` it keeps returning `Eof`.
    pub fn poll_event(&mut self) -> (r: Option<Result<Event, ParseError>>)
        requires
            old(self).wf(),
        ensures
            final(self).wf(),
            answers(r, old(self)@, final(self)@, markup::next(old(self)@)),
            final(self).held() <= old(self).held(),
    {
        let ghost st = self@;
        match self.pending_end.take() {
            Some(name) => {
                let popped = self.stack.pop();
                assert(self@.stack =~= st.stack.drop_last());
                assert(self@ =~= State { pending: None, stack: st.stack.drop_last(), ..st });
                return Some(Ok(Event::End { name }));
            },
            None => {},
        }
        assert(self@ =~= st);
        if self.finished {
            return Some(Ok(Event::Eof));
        }
        if !self.seen_content {
            self.parse_first_token()
        } else {
            self.parse_token()
        }
    }

    /// Pull the next event of a complete input. After `Eof` it keeps
    /// returning `Eof`.
    pub fn next_event(&mut self) -> (r: Result<Event, ParseError>)
        requires
            old(self).wf(),
            old(self)@.closed,
        ensures
            final(self).wf(),
            final(self)@.closed,
            markup::next(old(self)@) == Some((reply_view(r), final(self)@)),
            final(self).held() <= old(self).held(),
    {
        proof {
            markup::law_closed_input_decides(self@);
        }
        match self.poll_event() {
            Some(r) => r,
            None => Ok(Event::Eof),
        }
    }
}

} // verus!
