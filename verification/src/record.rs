//! Maps one XML record subtree onto a JSON value.
//!
//! The mapping is the widely-understood xmltodict convention, made explicit
//! and deterministic:
//!
//! - attributes become keys with a configurable prefix (default `@`);
//! - repeated child elements collapse into an array, in document order;
//! - a text-only element becomes a plain string, preserved verbatim;
//! - mixed content keeps its non-whitespace text under a configurable
//!   text key (default `#text`);
//! - an empty element becomes `null`.

use vstd::prelude::*;
use vstd::slice::slice_subrange;

use crate::finite;
use crate::finite::denotes_finite;
use crate::json;
use crate::json::{Json, Value};
use crate::number;
use crate::number::parse_unsigned;
use crate::reading;
use crate::text;
use crate::text::{
    begins_with, chars_of, find_char, has_char, join2, only_digits, only_white, same, string_of,
};

verus! {

/// The mapping configuration, over character sequences.
#[verifier::ext_equal]
pub struct Rules {
    pub attr_prefix: Seq<char>,
    pub text_key: Seq<char>,
    pub strip_namespaces: bool,
    pub infer_types: bool,
    pub wrap: bool,
}

/// An element that is still open: what has been read of it so far. A chunk of
/// text is marked when it came out of a CDATA section.
#[verifier::ext_equal]
pub struct Open {
    pub name: Seq<char>,
    pub attrs: Seq<(Seq<char>, Seq<char>)>,
    pub children: Seq<(Seq<char>, Json)>,
    pub chunks: Seq<(Seq<char>, bool)>,
}

/// A record under construction: its open elements, outermost first.
#[verifier::ext_equal]
pub struct Draft {
    pub open: Seq<Open>,
    pub rules: Rules,
}

/// What follows the last `:` of a name, if anything does; else the name.
pub open spec fn local_name(name: Seq<char>) -> Seq<char> {
    match text::last_where(name, text::equal_to(':')) {
        Some(i) => if i + 1 < name.len() {
            name.skip(i + 1)
        } else {
            name
        },
        None => name,
    }
}

/// The name under which an element or attribute appears.
pub open spec fn mapped_name(name: Seq<char>, strip: bool) -> Seq<char> {
    if strip {
        local_name(name)
    } else {
        name
    }
}

/// True of `xmlns` and `xmlns:*`.
pub open spec fn is_namespace_declaration(key: Seq<char>) -> bool {
    key == "xmlns"@ || "xmlns:"@.is_prefix_of(key)
}

/// The attributes that are kept, under their mapped names, in order.
pub open spec fn mapped_attributes(attrs: Seq<(Seq<char>, Seq<char>)>, strip: bool) -> Seq<
    (Seq<char>, Seq<char>),
>
    decreases attrs.len(),
{
    if attrs.len() == 0 {
        seq![]
    } else {
        let before = mapped_attributes(attrs.drop_last(), strip);
        let (key, value) = attrs.last();
        if strip && is_namespace_declaration(key) {
            before
        } else {
            before.push((mapped_name(key, strip), value))
        }
    }
}

/// All text of the chunks.
pub open spec fn joined(chunks: Seq<(Seq<char>, bool)>) -> Seq<char>
    decreases chunks.len(),
{
    if chunks.len() == 0 {
        seq![]
    } else {
        joined(chunks.drop_last()) + chunks.last().0
    }
}

/// The text of the chunks that are not mere indentation: white space counts
/// when it stands in a CDATA section.
pub open spec fn kept(chunks: Seq<(Seq<char>, bool)>) -> Seq<char>
    decreases chunks.len(),
{
    if chunks.len() == 0 {
        seq![]
    } else {
        let (chunk, cdata) = chunks.last();
        kept(chunks.drop_last()) + (if cdata || !text::all_white(chunk) {
            chunk
        } else {
            seq![]
        })
    }
}

/// Some chunk came out of a CDATA section.
pub open spec fn has_cdata(chunks: Seq<(Seq<char>, bool)>) -> bool {
    exists|i: int| 0 <= i < chunks.len() && (#[trigger] chunks[i]).1
}

/// `s` without a leading `-`.
pub open spec fn unsigned_part(s: Seq<char>) -> Seq<char> {
    if s.len() > 0 && s[0] == '-' {
        s.skip(1)
    } else {
        s
    }
}

/// True of the marks that begin an exponent.
pub open spec fn exponent_mark() -> spec_fn(char) -> bool {
    |c: char| c == 'e' || c == 'E'
}

/// Digits with a point among, before or after them, or digits alone.
pub open spec fn is_mantissa(s: Seq<char>) -> bool {
    match text::index_of(s, '.') {
        Some(i) => s.len() > 1 && text::all_digits(s.take(i)) && text::all_digits(s.skip(i + 1)),
        None => s.len() > 0 && text::all_digits(s),
    }
}

/// Digits with or without a sign.
pub open spec fn is_exponent(s: Seq<char>) -> bool {
    let digits = if s.len() > 0 && (s[0] == '+' || s[0] == '-') {
        s.skip(1)
    } else {
        s
    };
    digits.len() > 0 && text::all_digits(digits)
}

/// Strict float shape: `-?(\d+\.\d*|\.\d+|\d+)([eE][+-]?\d+)?` with at least
/// one of a point or an exponent.
pub open spec fn is_float(s: Seq<char>) -> bool {
    let number = unsigned_part(s);
    match text::first_where(number, exponent_mark()) {
        None => is_mantissa(number) && number.contains('.'),
        Some(i) => is_mantissa(number.take(i)) && is_exponent(number.skip(i + 1)),
    }
}

/// The value of digits with or without a leading `-`.
pub open spec fn signed_value(s: Seq<char>) -> int {
    let magnitude = number::digits_value(unsigned_part(s), 10)->0;
    if s.len() > 0 && s[0] == '-' {
        -magnitude
    } else {
        magnitude
    }
}

/// Conservative type inference: only exact `true`/`false`, integers in the
/// range of `i64` without leading zeros, and finite decimal floats convert.
pub open spec fn inferred(s: Seq<char>) -> Json {
    let digits = unsigned_part(s);
    if s == "true"@ {
        Json::Bool(true)
    } else if s == "false"@ {
        Json::Bool(false)
    } else if digits.len() > 0 && text::all_digits(digits) {
        if digits[0] == '0' && (digits.len() > 1 || s.len() > 1) {
            Json::Str(s)
        } else if i64::MIN <= signed_value(s) <= i64::MAX {
            Json::Int(signed_value(s))
        } else {
            Json::Str(s)
        }
    } else if is_float(s) && finite::is_finite(s) {
        Json::Float(s)
    } else {
        Json::Str(s)
    }
}

/// What a text or an attribute value becomes.
pub open spec fn scalar(s: Seq<char>, infer_types: bool) -> Json {
    if infer_types {
        inferred(s)
    } else {
        Json::Str(s)
    }
}

/// True of the entries under `key`.
pub open spec fn keyed(key: Seq<char>) -> spec_fn((Seq<char>, Json)) -> bool {
    |entry: (Seq<char>, Json)| entry.0 == key
}

/// `value` put behind what stands under its key already.
pub open spec fn promoted(existing: Json, value: Json) -> Json {
    match existing {
        Json::Array(items) => Json::Array(items.push(value)),
        _ => Json::Array(seq![existing, value]),
    }
}

/// The entries with one more child: under a key of its own at the end, or
/// with the first entry of the same key, promoted to an array.
pub open spec fn merged(entries: Seq<(Seq<char>, Json)>, key: Seq<char>, value: Json) -> Seq<
    (Seq<char>, Json),
> {
    match text::first_where(entries, keyed(key)) {
        Some(i) => entries.update(i, (entries[i].0, promoted(entries[i].1, value))),
        None => entries.push((key, value)),
    }
}

/// The entries with all children merged in, in order.
pub open spec fn merged_all(
    entries: Seq<(Seq<char>, Json)>,
    children: Seq<(Seq<char>, Json)>,
) -> Seq<(Seq<char>, Json)>
    decreases children.len(),
{
    if children.len() == 0 {
        entries
    } else {
        merged(
            merged_all(entries, children.drop_last()),
            children.last().0,
            children.last().1,
        )
    }
}

/// The entries that the attributes make.
pub open spec fn attribute_entries(attrs: Seq<(Seq<char>, Seq<char>)>, rules: Rules) -> Seq<
    (Seq<char>, Json),
> {
    attrs.map_values(
        |attr: (Seq<char>, Seq<char>)|
            (rules.attr_prefix + attr.0, scalar(attr.1, rules.infer_types)),
    )
}

/// The value of an element that has been read to its end.
pub open spec fn finished(element: Open, rules: Rules) -> Json {
    if element.attrs.len() == 0 && element.children.len() == 0 {
        let content = joined(element.chunks);
        if content.len() == 0 && !has_cdata(element.chunks) {
            Json::Null
        } else {
            scalar(content, rules.infer_types)
        }
    } else {
        let entries = merged_all(attribute_entries(element.attrs, rules), element.children);
        let content = kept(element.chunks);
        if content.len() == 0 {
            Json::Object(entries)
        } else {
            Json::Object(entries.push((rules.text_key, scalar(content, rules.infer_types))))
        }
    }
}

/// The draft after a start tag.
pub open spec fn started(
    draft: Draft,
    name: Seq<char>,
    attributes: Seq<(Seq<char>, Seq<char>)>,
) -> Draft {
    let strip = draft.rules.strip_namespaces;
    Draft {
        open: draft.open.push(
            Open {
                name: mapped_name(name, strip),
                attrs: mapped_attributes(attributes, strip),
                children: seq![],
                chunks: seq![],
            },
        ),
        rules: draft.rules,
    }
}

/// The draft after character data, which belongs to the innermost element.
pub open spec fn texted(draft: Draft, content: Seq<char>, cdata: bool) -> Draft {
    if draft.open.len() == 0 {
        draft
    } else {
        let last = draft.open.last();
        Draft {
            open: draft.open.drop_last().push(
                Open { chunks: last.chunks.push((content, cdata)), ..last },
            ),
            rules: draft.rules,
        }
    }
}

/// The draft after an end tag, and the record, if that was its last.
pub open spec fn ended(draft: Draft) -> (Draft, Option<Json>) {
    let element = draft.open.last();
    let value = finished(element, draft.rules);
    let outer = draft.open.drop_last();
    if outer.len() == 0 {
        let record = if draft.rules.wrap {
            Json::Object(seq![(element.name, value)])
        } else {
            value
        };
        (Draft { open: outer, rules: draft.rules }, Some(record))
    } else {
        let parent = outer.last();
        (
            Draft {
                open: outer.drop_last().push(
                    Open { children: parent.children.push((element.name, value)), ..parent },
                ),
                rules: draft.rules,
            },
            None,
        )
    }
}

/// Mapping configuration shared by `carve` and the CLI.
#[derive(Debug, PartialEq)]
pub struct MapOptions {
    /// Prefix for attribute keys (default `@`). May be empty.
    pub attr_prefix: String,
    /// Key for text in mixed content (default `#text`).
    pub text_key: String,
    /// Strip namespace prefixes from element/attribute names and drop
    /// `xmlns` declarations entirely.
    pub strip_namespaces: bool,
    /// Convert text and attribute values that look like numbers or booleans
    /// into JSON numbers and booleans.
    pub infer_types: bool,
    /// Wrap each record as `{"<element name>": ...}`.
    pub wrap: bool,
}

impl View for MapOptions {
    type V = Rules;

    open spec fn view(&self) -> Rules {
        Rules {
            attr_prefix: self.attr_prefix@,
            text_key: self.text_key@,
            strip_namespaces: self.strip_namespaces,
            infer_types: self.infer_types,
            wrap: self.wrap,
        }
    }
}

impl Default for MapOptions {
    fn default() -> (r: Self)
        ensures
            r@ == (Rules {
                attr_prefix: "@"@,
                text_key: "#text"@,
                strip_namespaces: false,
                infer_types: false,
                wrap: false,
            }),
    {
        MapOptions {
            attr_prefix: "@".to_owned(),
            text_key: "#text".to_owned(),
            strip_namespaces: false,
            infer_types: false,
            wrap: false,
        }
    }
}

impl Clone for MapOptions {
    fn clone(&self) -> (r: Self)
        ensures
            r@ == self@,
    {
        MapOptions {
            attr_prefix: self.attr_prefix.clone(),
            text_key: self.text_key.clone(),
            strip_namespaces: self.strip_namespaces,
            infer_types: self.infer_types,
            wrap: self.wrap,
        }
    }
}

/// Strip a `prefix:` from an XML name, if namespace stripping is on.
pub fn map_name(name: &str, opts: &MapOptions) -> (r: String)
    ensures
        r@ == mapped_name(name@, opts@.strip_namespaces),
{
    if !opts.strip_namespaces {
        return name.to_owned();
    }
    let chars = chars_of(name);
    let mut i: usize = chars.len();
    let ghost colon = text::equal_to(':');
    while i > 0
        invariant
            i <= chars@.len(),
            chars@ == name@,
            colon == text::equal_to(':'),
            opts@.strip_namespaces,
            forall|j: int| i <= j < chars@.len() ==> !colon(#[trigger] chars@[j]),
        decreases i,
    {
        i = i - 1;
        if chars[i] == ':' {
            proof {
                text::lemma_last_where(name@, colon, i as int);
            }
            if i + 1 < chars.len() {
                return string_of(slice_subrange(&chars, i + 1, chars.len()));
            }
            return name.to_owned();
        }
    }
    proof {
        text::lemma_last_where_none(name@, colon);
    }
    name.to_owned()
}

/// One text chunk; CDATA is tracked so explicit `<![CDATA[ ]]>` whitespace
/// survives mixed-content filtering.
#[derive(Debug)]
struct Chunk {
    text: String,
    cdata: bool,
}

spec fn chunk_views(chunks: Seq<Chunk>) -> Seq<(Seq<char>, bool)> {
    chunks.map_values(|c: Chunk| (c.text@, c.cdata))
}

#[derive(Debug)]
struct Frame {
    name: String,
    attrs: Vec<(String, String)>,
    children: Vec<(String, Value)>,
    chunks: Vec<Chunk>,
}

impl View for Frame {
    type V = Open;

    closed spec fn view(&self) -> Open {
        Open {
            name: self.name@,
            attrs: text::pair_views(self.attrs@),
            children: json::entry_jsons(self.children@),
            chunks: chunk_views(self.chunks@),
        }
    }
}

spec fn frame_views(frames: Seq<Frame>) -> Seq<Open> {
    frames.map_values(|f: Frame| f@)
}

/// Incrementally builds the JSON value for one record while the carve driver
/// streams events into it. Only the *current* record subtree is ever held in
/// memory: this is the constant-memory contract.
#[derive(Debug)]
pub struct RecordBuilder {
    frames: Vec<Frame>,
    opts: MapOptions,
}

impl View for RecordBuilder {
    type V = Draft;

    closed spec fn view(&self) -> Draft {
        Draft { open: frame_views(self.frames@), rules: self.opts@ }
    }
}

impl RecordBuilder {
    pub fn new(opts: MapOptions) -> (r: Self)
        ensures
            r@ == (Draft { open: seq![], rules: opts@ }),
    {
        let r = RecordBuilder { frames: Vec::new(), opts };
        assert(r@.open =~= seq![]);
        r
    }

    /// Open an element. Names arrive raw; mapping is applied here.
    pub fn start(&mut self, name: &str, attributes: &[(String, String)])
        ensures
            final(self)@ == started(old(self)@, name@, text::pair_views(attributes@)),
    {
        let ghost given = text::pair_views(attributes@);
        let ghost strip = self.opts.strip_namespaces;
        let mut attrs: Vec<(String, String)> = Vec::new();
        let mut i: usize = 0;
        assert(text::pair_views(attrs@) =~= mapped_attributes(given.take(0), strip));
        while i < attributes.len()
            invariant
                i <= attributes@.len(),
                given == text::pair_views(attributes@),
                strip == self.opts.strip_namespaces,
                *self == *old(self),
                text::pair_views(attrs@) == mapped_attributes(given.take(i as int), strip),
            decreases attributes@.len() - i,
        {
            let key = &attributes[i].0;
            assert(given.take(i + 1).drop_last() =~= given.take(i as int));
            assert(given.take(i + 1).last() == (attributes@[i as int].0@, attributes@[i as int].1@));
            if !(self.opts.strip_namespaces && (same(key, "xmlns") || begins_with(key, "xmlns:"))) {
                let ghost before = attrs@;
                let mapped = map_name(key, &self.opts);
                attrs.push((mapped, attributes[i].1.clone()));
                assert(text::pair_views(attrs@) =~= text::pair_views(before).push(
                    (attrs@.last().0@, attrs@.last().1@),
                ));
            }
            i = i + 1;
        }
        assert(given.take(i as int) =~= given);
        let name = map_name(name, &self.opts);
        let frame = Frame { name, attrs, children: Vec::new(), chunks: Vec::new() };
        assert(frame@.children =~= seq![]);
        assert(frame@.chunks =~= seq![]);
        self.frames.push(frame);
        assert(self@.open =~= old(self)@.open.push(frame@));
    }

    /// Append character data to the innermost open element.
    pub fn text(&mut self, text: &str, cdata: bool)
        ensures
            final(self)@ == texted(old(self)@, text@, cdata),
    {
        let n = self.frames.len();
        if n > 0 {
            let ghost before = self.frames@[n - 1];
            self.frames[n - 1].chunks.push(Chunk { text: text.to_owned(), cdata });
            let ghost after = self.frames@[n - 1];
            assert(after@.chunks =~= before@.chunks.push((text@, cdata)));
            assert(self@.open =~= texted(old(self)@, text@, cdata).open);
        }
    }

    /// Close the innermost element. Returns the finished record value when
    /// the outermost element of the record closes, `None` otherwise.
    pub fn end(&mut self) -> (r: Option<Value>)
        requires
            old(self)@.open.len() > 0,
        ensures
            final(self)@ == ended(old(self)@).0,
            match r {
                Some(value) => ended(old(self)@).1 == Some(value.json()),
                None => ended(old(self)@).1 is None,
            },
    {
        let ghost draft = self@;
        let frame = match self.frames.pop() {
            Some(frame) => frame,
            None => return None,
        };
        assert(frame@ == draft.open.last());
        assert(self@.open =~= draft.open.drop_last());
        let (name, value) = self.finalize(frame);
        let n = self.frames.len();
        if n > 0 {
            let ghost parent = self.frames@[n - 1];
            self.frames[n - 1].children.push((name, value));
            assert(self.frames@[n - 1]@.children =~= parent@.children.push((name@, value.json())));
            assert(self@.open =~= ended(draft).0.open);
            None
        } else if self.opts.wrap {
            let mut entries: Vec<(String, Value)> = Vec::new();
            entries.push((name, value));
            proof {
                json::lemma_object(entries);
                assert(json::entry_jsons(entries@) =~= seq![(name@, value.json())]);
            }
            Some(Value::Object(entries))
        } else {
            Some(value)
        }
    }

    /// The name and the value of an element that has been read to its end.
    fn finalize(&self, frame: Frame) -> (r: (String, Value))
        ensures
            r.0@ == frame@.name,
            r.1.json() == finished(frame@, self@.rules),
    {
        if frame.attrs.len() == 0 && frame.children.len() == 0 {
            // Verbatim: whitespace in a text-only element is data.
            let (content, cdata) = join_chunks(&frame.chunks);
            let value = if content.len() == 0 && !cdata {
                Value::Null
            } else {
                self.scalar(string_of(&content))
            };
            return (frame.name, value);
        }
        let mut entries = self.attribute_entries(&frame.attrs);
        let ghost first = json::entry_jsons(entries@);
        let ghost children = json::entry_jsons(frame.children@);
        assert(children.take(0) =~= seq![]);
        for child in it: frame.children
            invariant
                it.seq() == frame.children@,
                children == json::entry_jsons(frame.children@),
                json::entry_jsons(entries@) == merged_all(first, children.take(it.index())),
        {
            proof {
                let i = it.index();
                assert(children.take(i + 1).drop_last() =~= children.take(i));
                assert(children.take(i + 1).last() == (child.0@, child.1.json()));
            }
            merge_child(&mut entries, child.0, child.1);
        }
        assert(children.take(children.len() as int) =~= children);
        let content = keep_chunks(&frame.chunks);
        if content.len() > 0 {
            let ghost before = json::entry_jsons(entries@);
            let value = self.scalar(string_of(&content));
            entries.push((self.opts.text_key.clone(), value));
            assert(json::entry_jsons(entries@) =~= before.push((self@.rules.text_key, value.json())));
        }
        proof {
            json::lemma_object(entries);
        }
        (frame.name, Value::Object(entries))
    }

    /// The entries that the attributes make.
    fn attribute_entries(&self, attrs: &Vec<(String, String)>) -> (r: Vec<(String, Value)>)
        ensures
            json::entry_jsons(r@) == attribute_entries(text::pair_views(attrs@), self@.rules),
    {
        let mut entries: Vec<(String, Value)> = Vec::new();
        let mut i: usize = 0;
        while i < attrs.len()
            invariant
                entries@.len() == i <= attrs@.len(),
                forall|j: int|
                    0 <= j < i ==> (#[trigger] entries@[j]).0@ == self@.rules.attr_prefix
                        + attrs@[j].0@ && entries@[j].1.json() == scalar(
                        attrs@[j].1@,
                        self@.rules.infer_types,
                    ),
            decreases attrs@.len() - i,
        {
            let key = join2(&self.opts.attr_prefix, &attrs[i].0);
            let value = self.scalar(attrs[i].1.clone());
            entries.push((key, value));
            i = i + 1;
        }
        assert(json::entry_jsons(entries@) =~= attribute_entries(
            text::pair_views(attrs@),
            self@.rules,
        ));
        entries
    }

    fn scalar(&self, text: String) -> (r: Value)
        ensures
            r.json() == scalar(text@, self@.rules.infer_types),
    {
        if self.opts.infer_types {
            infer(&text)
        } else {
            Value::Str(text)
        }
    }

    /// True while an element of the record is still open.
    pub fn in_progress(&self) -> (r: bool)
        ensures
            r == (self@.open.len() > 0),
    {
        self.frames.len() > 0
    }
}

/// All text of the chunks, and whether one of them came out of a CDATA
/// section.
fn join_chunks(chunks: &Vec<Chunk>) -> (r: (Vec<char>, bool))
    ensures
        r.0@ == joined(chunk_views(chunks@)),
        r.1 == has_cdata(chunk_views(chunks@)),
{
    let ghost all = chunk_views(chunks@);
    let mut content: Vec<char> = Vec::new();
    let mut cdata = false;
    let mut i: usize = 0;
    assert(all.take(0) =~= seq![]);
    while i < chunks.len()
        invariant
            i <= chunks@.len(),
            all == chunk_views(chunks@),
            content@ == joined(all.take(i as int)),
            cdata == has_cdata(all.take(i as int)),
        decreases chunks@.len() - i,
    {
        let mut more = chars_of(&chunks[i].text);
        content.append(&mut more);
        proof {
            let before = all.take(i as int);
            let after = all.take(i + 1);
            assert(after.drop_last() =~= before);
            assert(after.last() == (chunks@[i as int].text@, chunks@[i as int].cdata));
            assert(has_cdata(after) == (has_cdata(before) || chunks@[i as int].cdata)) by {
                assert forall|j: int| 0 <= j < before.len() implies before[j] == after[j] by {}
                assert(after[i as int].1 == chunks@[i as int].cdata);
                if has_cdata(before) {
                    let j = choose|j: int| 0 <= j < before.len() && (#[trigger] before[j]).1;
                    assert(after[j].1);
                }
                if has_cdata(after) && !chunks@[i as int].cdata {
                    let j = choose|j: int| 0 <= j < after.len() && (#[trigger] after[j]).1;
                    assert(before[j].1);
                }
            }
        }
        cdata = cdata || chunks[i].cdata;
        i = i + 1;
    }
    assert(all.take(i as int) =~= all);
    (content, cdata)
}

/// The text of the chunks that are not mere indentation.
fn keep_chunks(chunks: &Vec<Chunk>) -> (r: Vec<char>)
    ensures
        r@ == kept(chunk_views(chunks@)),
{
    let ghost all = chunk_views(chunks@);
    let mut content: Vec<char> = Vec::new();
    let mut i: usize = 0;
    assert(all.take(0) =~= seq![]);
    while i < chunks.len()
        invariant
            i <= chunks@.len(),
            all == chunk_views(chunks@),
            content@ == kept(all.take(i as int)),
        decreases chunks@.len() - i,
    {
        let ghost before = content@;
        let mut more = chars_of(&chunks[i].text);
        if chunks[i].cdata || !only_white(&more) {
            content.append(&mut more);
        }
        assert(all.take(i + 1).drop_last() =~= all.take(i as int));
        assert(all.take(i + 1).last() == (chunks@[i as int].text@, chunks@[i as int].cdata));
        i = i + 1;
        assert(content@ =~= kept(all.take(i as int)));
    }
    assert(all.take(i as int) =~= all);
    content
}

/// Merge a child into the entry list, promoting repeats to an array.
fn merge_child(entries: &mut Vec<(String, Value)>, key: String, value: Value)
    ensures
        json::entry_jsons(final(entries)@) == merged(
            json::entry_jsons(old(entries)@),
            key@,
            value.json(),
        ),
{
    let ghost all = json::entry_jsons(entries@);
    let mut i: usize = 0;
    while i < entries.len()
        invariant
            i <= entries@.len(),
            *entries == *old(entries),
            all == json::entry_jsons(entries@),
            forall|j: int| 0 <= j < i ==> !keyed(key@)(#[trigger] all[j]),
        decreases entries@.len() - i,
    {
        if same(&entries[i].0, &key) {
            proof {
                text::lemma_first_where(all, keyed(key@), i as int);
            }
            let mut held = Value::Null;
            core::mem::swap(&mut entries[i].1, &mut held);
            let ghost existing = held;
            proof {
                json::lemma_containers(existing);
            }
            let mut items: Vec<Value> = match held {
                Value::Array(items) => items,
                other => {
                    let mut items: Vec<Value> = Vec::new();
                    items.push(other);
                    items
                },
            };
            let ghost before = items@;
            items.push(value);
            proof {
                json::lemma_array(items);
                assert(json::jsons(items@) =~= json::jsons(before).push(value.json()));
                assert(Value::Array(items).json() == promoted(existing.json(), value.json())) by {
                    if !(existing is Array) {
                        assert(json::jsons(items@) =~= seq![existing.json(), value.json()]);
                    }
                }
            }
            entries[i].1 = Value::Array(items);
            assert(json::entry_jsons(entries@) =~= merged(all, key@, value.json()));
            return;
        }
        i = i + 1;
    }
    proof {
        text::lemma_first_where_none(all, keyed(key@));
    }
    entries.push((key, value));
    assert(json::entry_jsons(entries@) =~= all.push((key@, value.json())));
}

/// Conservative type inference: only exact `true`/`false`, i64-range
/// integers without leading zeros, and finite decimal floats convert.
/// Anything ambiguous (`007`, `1e999`, `NaN`, `+5`, ``) stays a string so no
/// information is lost.
pub fn infer(text: &str) -> (r: Value)
    ensures
        r.json() == inferred(text@),
{
    if same(text, "true") {
        return Value::Bool(true);
    }
    if same(text, "false") {
        return Value::Bool(false);
    }
    let chars = chars_of(text);
    let negative = chars.len() > 0 && chars[0] == '-';
    let digits = if negative {
        slice_subrange(&chars, 1, chars.len())
    } else {
        chars.as_slice()
    };
    if digits.len() > 0 && only_digits(digits) {
        // "007" and "-0" round-trip badly as numbers; keep them as strings.
        if digits[0] == '0' && (digits.len() > 1 || chars.len() > 1) {
            return Value::Str(text.to_owned());
        }
        let max: u64 = if negative {
            0x8000_0000_0000_0000
        } else {
            0x7fff_ffff_ffff_ffff
        };
        proof {
            number::lemma_decimal_of_value(digits@);
        }
        return match parse_unsigned(digits, 10, max) {
            Some(n) => Value::Int(
                if negative {
                    (-(n as i128)) as i64
                } else {
                    n as i64
                },
            ),
            // beyond i64: preserve exactly
            None => Value::Str(text.to_owned()),
        };
    }
    if looks_like_float(&chars) && denotes_finite(&chars) {
        return Value::Float(text.to_owned());
    }
    Value::Str(text.to_owned())
}

/// Digits with a point among, before or after them, or digits alone.
fn looks_like_mantissa(s: &[char]) -> (r: bool)
    ensures
        r == is_mantissa(s@),
{
    match find_char(s, '.') {
        Some(i) => {
            assert(i < s.len());
            s.len() > 1 && only_digits(slice_subrange(s, 0, i)) && only_digits(
                slice_subrange(s, i + 1, s.len()),
            )
        },
        None => s.len() > 0 && only_digits(s),
    }
}

/// Digits with or without a sign.
fn looks_like_exponent(s: &[char]) -> (r: bool)
    ensures
        r == is_exponent(s@),
{
    let digits = if s.len() > 0 && (s[0] == '+' || s[0] == '-') {
        slice_subrange(s, 1, s.len())
    } else {
        s
    };
    digits.len() > 0 && only_digits(digits)
}

/// Index of the exponent mark.
pub fn find_mark(number: &[char]) -> (r: Option<usize>)
    ensures
        match r {
            Some(i) => text::first_where(number@, exponent_mark()) == Some(i as int) && i
                < number@.len(),
            None => text::first_where(number@, exponent_mark()) is None,
        },
{
    let ghost mark = exponent_mark();
    let mut i: usize = 0;
    while i < number.len()
        invariant
            i <= number@.len(),
            mark == exponent_mark(),
            forall|j: int| 0 <= j < i ==> !mark(#[trigger] number@[j]),
        decreases number@.len() - i,
    {
        let c = number[i];
        if c == 'e' || c == 'E' {
            proof {
                text::lemma_first_where(number@, mark, i as int);
            }
            return Some(i);
        }
        i = i + 1;
    }
    proof {
        text::lemma_first_where_none(number@, mark);
    }
    None
}

/// Strict float shape: `-?(\d+\.\d*|\.\d+|\d+)([eE][+-]?\d+)?` with at least
/// one of a dot or an exponent (plain integers are handled above).
fn looks_like_float(text: &[char]) -> (r: bool)
    ensures
        r == is_float(text@),
{
    let number = if text.len() > 0 && text[0] == '-' {
        slice_subrange(text, 1, text.len())
    } else {
        text
    };
    match find_mark(number) {
        Some(i) => {
            assert(i < number.len());
            looks_like_mantissa(slice_subrange(number, 0, i)) && looks_like_exponent(
                slice_subrange(number, i + 1, number.len()),
            )
        },
        None => looks_like_mantissa(number) && has_char(number, '.'),
    }
}

/// Type inference loses nothing: whatever it makes of a text, the text can be
/// told from the result.
pub proof fn law_inference_loses_nothing(s: Seq<char>)
    ensures
        match inferred(s) {
            Json::Str(t) => t == s,
            Json::Float(t) => t == s,
            Json::Int(n) => number::signed_decimal(n) == s && i64::MIN <= n <= i64::MAX,
            Json::Bool(b) => json::json_text(Json::Bool(b)) == s,
            _ => false,
        },
{
    let digits = unsigned_part(s);
    if inferred(s) is Int {
        number::lemma_decimal_of_value(digits);
        if s[0] == '-' {
            assert(s =~= seq!['-'] + digits);
        }
    }
}

/// What an element becomes is `null`, a scalar or an object, never an array:
/// arrays come from repeated children alone.
pub proof fn law_elements_are_never_arrays(element: Open, rules: Rules)
    ensures
        !(finished(element, rules) is Array),
{
}

/// Attributes come before children, in document order, under the prefix; the
/// value of one is its own unless a child has the very same key.
pub proof fn law_attributes_come_first(element: Open, rules: Rules, i: int)
    requires
        0 <= i < element.attrs.len(),
    ensures
        finished(element, rules) matches Json::Object(entries) && {
            let key = rules.attr_prefix + element.attrs[i].0;
            &&& element.attrs.len() <= entries.len()
            &&& entries[i].0 == key
            &&& (forall|j: int|
                0 <= j < element.children.len() ==> (#[trigger] element.children[j]).0 != key)
                ==> entries[i].1 == scalar(element.attrs[i].1, rules.infer_types)
        },
{
    lemma_merged_all_keeps(attribute_entries(element.attrs, rules), element.children, i);
}

proof fn lemma_merged_all_keeps(
    entries: Seq<(Seq<char>, Json)>,
    children: Seq<(Seq<char>, Json)>,
    i: int,
)
    requires
        0 <= i < entries.len(),
    ensures
        ({
            let all = merged_all(entries, children);
            &&& entries.len() <= all.len()
            &&& all[i].0 == entries[i].0
            &&& (forall|j: int|
                0 <= j < children.len() ==> (#[trigger] children[j]).0 != entries[i].0)
                ==> all[i].1 == entries[i].1
        }),
    decreases children.len(),
{
    if children.len() > 0 {
        let init = children.drop_last();
        lemma_merged_all_keeps(entries, init, i);
        let before = merged_all(entries, init);
        text::lemma_first_where_found(before, keyed(children.last().0));
        if forall|j: int| 0 <= j < children.len() ==> (#[trigger] children[j]).0 != entries[i].0 {
            assert forall|j: int| 0 <= j < init.len() implies (#[trigger] init[j]).0
                != entries[i].0 by {
                assert(init[j] == children[j]);
            }
            assert(children.last() == children[children.len() - 1]);
        }
    }
}

/// The values of the children named `key`, in document order.
pub open spec fn values_of(children: Seq<(Seq<char>, Json)>, key: Seq<char>) -> Seq<Json>
    decreases children.len(),
{
    if children.len() == 0 {
        seq![]
    } else {
        let before = values_of(children.drop_last(), key);
        if children.last().0 == key {
            before.push(children.last().1)
        } else {
            before
        }
    }
}

/// The value of one child as it is; those of several as an array.
pub open spec fn grouped(values: Seq<Json>) -> Json {
    if values.len() == 1 {
        values[0]
    } else {
        Json::Array(values)
    }
}

/// The names of the children in order of first occurrence.
pub open spec fn first_names(children: Seq<(Seq<char>, Json)>) -> Seq<Seq<char>>
    decreases children.len(),
{
    if children.len() == 0 {
        seq![]
    } else {
        let before = first_names(children.drop_last());
        if before.contains(children.last().0) {
            before
        } else {
            before.push(children.last().0)
        }
    }
}

/// Children become keys in order of first occurrence, one key for each name.
/// A name that occurs once keeps its value; one that repeats gets the array
/// of all its values in document order.
pub proof fn law_children_are_grouped(children: Seq<(Seq<char>, Json)>)
    requires
        forall|i: int| 0 <= i < children.len() ==> !((#[trigger] children[i]).1 is Array),
    ensures
        merged_all(seq![], children) == first_names(children).map_values(
            |name: Seq<char>| (name, grouped(values_of(children, name))),
        ),
        first_names(children).no_duplicates(),
        forall|name: Seq<char>|
            #[trigger] first_names(children).contains(name) <==> values_of(children, name).len()
                > 0,
    decreases children.len(),
{
    let names = first_names(children);
    if children.len() > 0 {
        let init = children.drop_last();
        let (key, value) = children.last();
        assert forall|i: int| 0 <= i < init.len() implies !((#[trigger] init[i]).1 is Array) by {
            assert(init[i] == children[i]);
        }
        law_children_are_grouped(init);
        let before = first_names(init);
        let entries = merged_all(seq![], init);
        let wanted = names.map_values(
            |name: Seq<char>| (name, grouped(values_of(children, name))),
        );
        lemma_values_are_children(init, key);
        if before.contains(key) {
            let i = before.index_of(key);
            assert(before[i] == key);
            assert forall|j: int| 0 <= j < i implies !keyed(key)(#[trigger] entries[j]) by {
                assert(before[j] != before[i]);
            }
            text::lemma_first_where(entries, keyed(key), i);
            let old_values = values_of(init, key);
            let new_values = values_of(children, key);
            assert(new_values == old_values.push(value));
            assert(promoted(grouped(old_values), value) == grouped(new_values)) by {
                if old_values.len() == 1 {
                    assert(new_values =~= seq![old_values[0], value]);
                }
            }
            assert(merged(entries, key, value) =~= wanted);
        } else {
            assert forall|j: int| 0 <= j < entries.len() implies !keyed(key)(
                #[trigger] entries[j],
            ) by {
                assert(before.contains(before[j]));
            }
            text::lemma_first_where_none(entries, keyed(key));
            assert(values_of(init, key).len() == 0);
            assert(values_of(children, key) =~= seq![value]);
            assert forall|j: int| 0 <= j < before.len() implies before[j] != key by {
                assert(before.contains(before[j]));
            }
            assert(merged(entries, key, value) =~= wanted);
        }
        assert forall|name: Seq<char>| #[trigger] names.contains(name) <==> values_of(
            children,
            name,
        ).len() > 0 by {
            assert(before.contains(name) <==> values_of(init, name).len() > 0);
            if before.contains(name) {
                let j = before.index_of(name);
                assert(names[j] == name);
            }
            if name == key {
                assert(names.contains(key)) by {
                    if !before.contains(key) {
                        assert(names.last() == key);
                    }
                }
            }
        }
    } else {
        assert(merged_all(seq![], children) =~= names.map_values(
            |name: Seq<char>| (name, grouped(values_of(children, name))),
        ));
    }
}

/// The values under a name are values of children.
proof fn lemma_values_are_children(children: Seq<(Seq<char>, Json)>, key: Seq<char>)
    requires
        forall|i: int| 0 <= i < children.len() ==> !((#[trigger] children[i]).1 is Array),
    ensures
        forall|i: int|
            0 <= i < values_of(children, key).len() ==> !((#[trigger] values_of(
                children,
                key,
            )[i]) is Array),
    decreases children.len(),
{
    if children.len() > 0 {
        let init = children.drop_last();
        assert forall|i: int| 0 <= i < init.len() implies !((#[trigger] init[i]).1 is Array) by {
            assert(init[i] == children[i]);
        }
        lemma_values_are_children(init, key);
        assert(children.last() == children[children.len() - 1]);
    }
}

/// Where no child has the key of an attribute, the children are grouped as if
/// there were no attributes, and stand behind them.
pub proof fn law_children_follow_the_attributes(
    entries: Seq<(Seq<char>, Json)>,
    children: Seq<(Seq<char>, Json)>,
)
    requires
        forall|i: int, j: int|
            0 <= i < entries.len() && 0 <= j < children.len() ==> (#[trigger] entries[i]).0 != (
            #[trigger] children[j]).0,
    ensures
        merged_all(entries, children) == entries + merged_all(seq![], children),
    decreases children.len(),
{
    if children.len() == 0 {
        assert(entries + seq![] =~= entries);
    } else {
        let init = children.drop_last();
        let (key, value) = children.last();
        assert(children[children.len() - 1] == children.last());
        assert forall|i: int, j: int| 0 <= i < entries.len() && 0 <= j < init.len() implies (
        #[trigger] entries[i]).0 != (#[trigger] init[j]).0 by {
            assert(init[j] == children[j]);
        }
        law_children_follow_the_attributes(entries, init);
        let alone = merged_all(seq![], init);
        let all = entries + alone;
        text::lemma_first_where_found(alone, keyed(key));
        match text::first_where(alone, keyed(key)) {
            Some(i) => {
                assert(keyed(key)(alone[i]));
                assert forall|j: int| 0 <= j < entries.len() + i implies !keyed(key)(
                    #[trigger] all[j],
                ) by {
                    if j >= entries.len() {
                        assert(all[j] == alone[j - entries.len()]);
                    }
                }
                assert(all[entries.len() + i] == alone[i]);
                text::lemma_first_where(all, keyed(key), entries.len() + i);
                assert(merged(all, key, value) =~= entries + merged(alone, key, value));
            },
            None => {
                assert forall|j: int| 0 <= j < all.len() implies !keyed(key)(#[trigger] all[j]) by {
                    if j >= entries.len() {
                        assert(all[j] == alone[j - entries.len()]);
                    }
                }
                text::lemma_first_where_none(all, keyed(key));
                assert(merged(all, key, value) =~= entries + merged(alone, key, value));
            },
        }
    }
}

/// What is kept of a list of chunks is kept of each part.
proof fn lemma_kept_concat(a: Seq<(Seq<char>, bool)>, b: Seq<(Seq<char>, bool)>)
    ensures
        kept(a + b) == kept(a) + kept(b),
    decreases b.len(),
{
    if b.len() == 0 {
        assert(a + b =~= a);
        assert(kept(a) + kept(b) =~= kept(a));
    } else {
        lemma_kept_concat(a, b.drop_last());
        assert((a + b).drop_last() =~= a + b.drop_last());
        assert(kept(a + b) =~= kept(a) + kept(b));
    }
}

/// Indentation between the children of an element means nothing: with or
/// without a chunk of white space anywhere in it, the element has one value.
pub proof fn law_indentation_is_dropped(
    element: Open,
    a: Seq<(Seq<char>, bool)>,
    white: Seq<char>,
    b: Seq<(Seq<char>, bool)>,
    rules: Rules,
)
    requires
        element.attrs.len() > 0 || element.children.len() > 0,
        text::all_white(white),
    ensures
        finished(Open { chunks: a + seq![(white, false)] + b, ..element }, rules) == finished(
            Open { chunks: a + b, ..element },
            rules,
        ),
{
    lemma_kept_concat(a, b);
    lemma_kept_concat(a + seq![(white, false)], b);
    lemma_kept_concat(a, seq![(white, false)]);
    assert(kept(seq![(white, false)]) =~= seq![]) by {
        reveal_with_fuel(kept, 2);
    }
    assert(kept(a) + Seq::<char>::empty() =~= kept(a));
}

/// Only strings, `null` and what is made of them: no boolean and no number.
pub open spec fn untyped(j: Json) -> bool
    decreases j,
{
    match j {
        Json::Null | Json::Str(_) => true,
        Json::Array(items) => forall|i: int| 0 <= i < items.len() ==> untyped(#[trigger] items[i]),
        Json::Object(entries) => forall|i: int|
            0 <= i < entries.len() ==> untyped((#[trigger] entries[i]).1),
        _ => false,
    }
}

proof fn lemma_merged_all_is_untyped(
    entries: Seq<(Seq<char>, Json)>,
    children: Seq<(Seq<char>, Json)>,
)
    requires
        forall|i: int| 0 <= i < entries.len() ==> untyped((#[trigger] entries[i]).1),
        forall|i: int| 0 <= i < children.len() ==> untyped((#[trigger] children[i]).1),
    ensures
        forall|i: int|
            0 <= i < merged_all(entries, children).len() ==> untyped(
                (#[trigger] merged_all(entries, children)[i]).1,
            ),
    decreases children.len(),
{
    if children.len() > 0 {
        let init = children.drop_last();
        assert forall|i: int| 0 <= i < init.len() implies untyped((#[trigger] init[i]).1) by {
            assert(init[i] == children[i]);
        }
        lemma_merged_all_is_untyped(entries, init);
        let before = merged_all(entries, init);
        let (key, value) = children.last();
        assert(children[children.len() - 1] == children.last());
        text::lemma_first_where_found(before, keyed(key));
        if let Some(i) = text::first_where(before, keyed(key)) {
            assert(untyped(promoted(before[i].1, value)));
        }
    }
}

/// Without type inference everything stays a string: an element whose
/// children hold no boolean and no number holds none either.
pub proof fn law_without_inference_all_is_text(element: Open, rules: Rules)
    requires
        !rules.infer_types,
        forall|i: int|
            0 <= i < element.children.len() ==> untyped((#[trigger] element.children[i]).1),
    ensures
        untyped(finished(element, rules)),
{
    let entries = attribute_entries(element.attrs, rules);
    assert forall|i: int| 0 <= i < entries.len() implies untyped((#[trigger] entries[i]).1) by {
        assert(entries[i].1 == Json::Str(element.attrs[i].1));
    }
    lemma_merged_all_is_untyped(entries, element.children);
    assert(untyped(Json::Str(kept(element.chunks))));
    assert(untyped(finished(element, rules)));
}

/// Stripping a name leaves no prefix, unless nothing follows its last colon;
/// to strip it again changes nothing.
pub proof fn law_stripping_removes_the_prefix(name: Seq<char>)
    ensures
        name.len() > 0 && name.last() != ':' ==> !local_name(name).contains(':'),
        local_name(local_name(name)) == local_name(name),
{
    let colon = text::equal_to(':');
    text::lemma_last_where_found(name, colon);
    if let Some(i) = text::last_where(name, colon) {
        if i + 1 < name.len() {
            let local = name.skip(i + 1);
            assert forall|j: int| 0 <= j < local.len() implies !colon(#[trigger] local[j]) by {
                assert(local[j] == name[i + 1 + j]);
            }
            text::lemma_last_where_none(local, colon);
        }
    }
}

/// `null` stands for an element in which nothing was stated: no attribute, no
/// child, no text and no CDATA section, not even an empty one.
pub proof fn law_only_empty_elements_are_null(element: Open, rules: Rules)
    ensures
        finished(element, rules) is Null <==> element.attrs.len() == 0 && element.children.len()
            == 0 && joined(element.chunks).len() == 0 && !has_cdata(element.chunks),
{
}

/// An element with text alone is that text, white space and all.
pub proof fn law_text_alone_is_verbatim(element: Open, rules: Rules)
    requires
        !rules.infer_types,
        element.attrs.len() == 0,
        element.children.len() == 0,
        !(finished(element, rules) is Null),
    ensures
        finished(element, rules) == Json::Str(joined(element.chunks)),
{
}

/// Inference converts all that it may. `true` and `false` become booleans, and
/// the decimal form of every integer in the range of `i64` becomes that
/// integer; every float literal that denotes a finite number becomes a float.
pub proof fn law_inference_converts_all_it_may(n: int, l: finite::Literal)
    ensures
        inferred("true"@) == Json::Bool(true),
        inferred("false"@) == Json::Bool(false),
        i64::MIN <= n <= i64::MAX ==> inferred(number::signed_decimal(n)) == Json::Int(n),
        finite::well_formed(l) && !finite::reaches(
            finite::literal_digits(l),
            finite::literal_scale(l),
            finite::overflow(),
        ) ==> inferred(finite::literal_text(l)) == Json::Float(finite::literal_text(l)),
{
    reveal_strlit("true");
    reveal_strlit("false");
    assert("true"@.len() == 4 && "false"@.len() == 5);
    assert("true"@[0] == 't' && "false"@[0] == 'f');
    if i64::MIN <= n <= i64::MAX {
        let s = number::signed_decimal(n);
        let m: nat = if n < 0 {
            (-n) as nat
        } else {
            n as nat
        };
        reading::lemma_decimal(m);
        reading::lemma_decimal_chars(n);
        assert(unsigned_part(s) =~= number::decimal(m));
        assert(s[0] != 't' && s[0] != 'f');
        assert(signed_value(s) == n);
        if number::decimal(m)[0] == '0' {
            assert(m == 0);
            assert(s =~= number::decimal(0));
        }
    }
    if finite::well_formed(l) {
        finite::law_literals_denote_their_numbers(l);
        let s = finite::literal_text(l);
        lemma_float_is_no_integer(s);
        reading::law_inferred_floats_are_fractional(s);
    }
}

/// A text of the float shape is no boolean and no run of digits.
proof fn lemma_float_is_no_integer(s: Seq<char>)
    requires
        is_float(s),
    ensures
        !text::all_digits(unsigned_part(s)),
        s != "true"@,
        s != "false"@,
{
    let number = unsigned_part(s);
    let mark = exponent_mark();
    text::lemma_first_where_found(number, mark);
    match text::first_where(number, mark) {
        Some(i) => {
            assert(mark(number[i]));
            assert(!('0' <= number[i] <= '9'));
            text::lemma_first_where_found(number.take(i), text::equal_to('.'));
            assert(number.take(i).len() > 0);
            if let Some(k) = text::index_of(number.take(i), '.') {
                if k > 0 {
                    assert('0' <= number.take(i).take(k)[0] <= '9');
                    assert(number.take(i).take(k)[0] == number[0]);
                }
            } else {
                assert('0' <= number.take(i)[0] <= '9');
                assert(number.take(i)[0] == number[0]);
            }
        },
        None => {
            let k = number.index_of('.');
            assert(number[k] == '.');
            assert(!('0' <= number[k] <= '9'));
            text::lemma_first_where_found(number, text::equal_to('.'));
            if let Some(j) = text::index_of(number, '.') {
                if j > 0 {
                    assert('0' <= number.take(j)[0] <= '9');
                    assert(number.take(j)[0] == number[0]);
                }
            }
        },
    }
    reveal_strlit("true");
    reveal_strlit("false");
    assert("true"@[0] == 't' && "false"@[0] == 'f');
    assert(s.len() > 0);
    assert(s[0] == '-' || s[0] == number[0]);
}

/// And it converts nothing else: a text stays a string only when it is no
/// boolean, no integer in the range of `i64` in its decimal form, and no float
/// literal that denotes a finite number.
pub proof fn law_only_the_rest_stays_text(s: Seq<char>)
    ensures
        inferred(s) is Str <==> {
            &&& s != "true"@
            &&& s != "false"@
            &&& forall|n: int| i64::MIN <= n <= i64::MAX ==> s != #[trigger] number::signed_decimal(n)
            &&& forall|l: finite::Literal|
                #![trigger finite::literal_text(l)]
                finite::well_formed(l) && s == finite::literal_text(l) ==> finite::reaches(
                    finite::literal_digits(l),
                    finite::literal_scale(l),
                    finite::overflow(),
                )
        },
{
    law_inference_loses_nothing(s);
    assert forall|n: int| i64::MIN <= n <= i64::MAX && s == #[trigger] number::signed_decimal(
        n,
    ) implies inferred(s) == Json::Int(n) by {
        law_inference_converts_all_it_may(n, finite::parts(s));
    }
    law_inference_converts_all_it_may(0, finite::parts(s));
    assert forall|l: finite::Literal|
        #![trigger finite::literal_text(l)]
        finite::well_formed(l) && s == finite::literal_text(l) && !finite::reaches(
            finite::literal_digits(l),
            finite::literal_scale(l),
            finite::overflow(),
        ) implies inferred(s) == Json::Float(s) by {
        law_inference_converts_all_it_may(0, l);
    }
    if let Json::Int(n) = inferred(s) {
        assert(s == number::signed_decimal(n));
    }
    if inferred(s) is Float {
        finite::law_only_literals_have_the_float_shape(s);
        let l = choose|l: finite::Literal| #[trigger]
            finite::well_formed(l) && s == finite::literal_text(l);
        finite::law_literals_denote_their_numbers(l);
    }
}

} // verus!
